//! What reading a written string gives back: the text it was written from, whichever way it was written.

use vstd::prelude::*;

use crate::ascii::{BACKSLASH, LOWER_U, QUOTE};

use vstd::utf8::{
    decode_first_scalar, decode_utf8, length_of_first_scalar, pop_first_scalar, valid_first_scalar, valid_utf8,
};

use crate::encode_text::{
    lemma_escaped_single, lemma_first_scalar, lemma_plain_run, quoted, scalar_escape, text_body, unit_escape,
};
use crate::json_escape::{escape_text, escaped, escaped_byte, hex_digit, lemma_escaped_concat};
use crate::lazy::{content_end, escape_at, hex4_value, lemma_first_scalar_is_a_character, unescaped};
use crate::lex::hex_value;

verus! {

/// What the first character of the text `bytes` is written as.
pub open spec fn first_unit(bytes: Seq<u8>, ascii: bool) -> Seq<u8> {
    if bytes[0] < 0x80 {
        escaped_byte(bytes[0])
    } else if ascii {
        scalar_escape(decode_first_scalar(bytes))
    } else {
        bytes.take(length_of_first_scalar(bytes))
    }
}

/// A text body is its first character's unit and the body of the rest.
pub proof fn lemma_body_by_units(bytes: Seq<u8>, ascii: bool)
    requires
        valid_utf8(bytes),
        bytes.len() > 0,
    ensures
        text_body(bytes, ascii) == first_unit(bytes, ascii) + text_body(pop_first_scalar(bytes), ascii),
{
    lemma_first_scalar(bytes);
    if !ascii {
        let width = length_of_first_scalar(bytes);
        let first = bytes.take(width);
        let rest = pop_first_scalar(bytes);
        assert(first + rest =~= bytes);
        lemma_escaped_concat(first, rest);
        if bytes[0] < 0x80 {
            assert(first =~= seq![bytes[0]]);
            lemma_escaped_single(bytes[0]);
        } else {
            lemma_plain_run(first, width, false);
            assert(first.skip(width) =~= seq![]);
            assert(escaped(seq![]) =~= seq![]);
            assert(first.take(width) + escaped(seq![]) =~= first);
        }
    }
}

/// A written digit is read back.
proof fn lemma_hex_round_trip(nibble: int)
    requires
        0 <= nibble < 16,
    ensures
        hex_value(hex_digit(nibble)) == Some(nibble as u8),
{
}

/// Four written digits are read back.
proof fn lemma_four_digits(raw: Seq<u8>, at: int, a: int, b: int, c: int, d: int)
    requires
        0 <= at && at + 4 <= raw.len(),
        0 <= a < 16 && 0 <= b < 16 && 0 <= c < 16 && 0 <= d < 16,
        raw[at] == hex_digit(a) && raw[at + 1] == hex_digit(b) && raw[at + 2] == hex_digit(c) && raw[at + 3]
            == hex_digit(d),
    ensures
        hex4_value(raw, at) == Some(a * 4096 + b * 256 + c * 16 + d),
{
    lemma_hex_round_trip(a);
    lemma_hex_round_trip(b);
    lemma_hex_round_trip(c);
    lemma_hex_round_trip(d);
}

/// A unit by its four digits.
proof fn lemma_unit_by_digits(unit: int)
    requires
        0 <= unit <= 0xffff,
    ensures
        unit / 4096 % 16 * 4096 + unit / 256 % 16 * 256 + unit / 16 % 16 * 16 + unit % 16 == unit,
{
    let (tens, rest) = (unit / 16, unit % 16);
    assert(unit / 256 == tens / 16);
    assert(unit / 4096 == tens / 256);
    assert(tens / 256 == tens / 16 / 16);
}

/// A `\u` unit that was written at `at` is read back.
proof fn lemma_unit_round_trip(raw: Seq<u8>, at: int, unit: int)
    requires
        0 <= unit <= 0xffff,
        0 <= at && at + 6 <= raw.len(),
        raw.subrange(at, at + 6) == unit_escape(unit),
    ensures
        raw[at] == BACKSLASH,
        raw[at + 1] == LOWER_U,
        hex4_value(raw, at + 2) == Some(unit),
{
    let spelled = raw.subrange(at, at + 6);
    assert(spelled == unit_escape(unit));
    assert(raw[at] == spelled[0] && raw[at + 1] == spelled[1]);
    assert(raw[at + 2] == spelled[2] && raw[at + 3] == spelled[3] && raw[at + 4] == spelled[4] && raw[at + 5]
        == spelled[5]);
    lemma_unit_by_digits(unit);
    lemma_four_digits(raw, at + 2, unit / 4096 % 16, unit / 256 % 16, unit / 16 % 16, unit % 16);
}

/// A surrogate pair of units is one escape.
proof fn lemma_pair_is_one_escape(raw: Seq<u8>, high: int, low: int)
    requires
        raw.len() >= 12,
        raw[1] == LOWER_U && raw[6] == BACKSLASH && raw[7] == LOWER_U,
        hex4_value(raw, 2) == Some(high) && hex4_value(raw, 8) == Some(low),
        0xd800 <= high <= 0xdbff && 0xdc00 <= low <= 0xdfff,
    ensures
        escape_at(raw) == Some(((0x10000 + (high - 0xd800) * 0x400 + (low - 0xdc00)) as char, 12int)),
{
}

/// A written character's escape is read back as the character.
proof fn lemma_scalar_escape_round_trip(codepoint: u32, tail: Seq<u8>)
    requires
        vstd::utf8::is_scalar(codepoint),
    ensures
        scalar_escape(codepoint).len() > 0 && scalar_escape(codepoint)[0] == BACKSLASH,
        escape_at(scalar_escape(codepoint) + tail) == Some((codepoint as char, scalar_escape(codepoint).len() as int)),
{
    let raw = scalar_escape(codepoint) + tail;
    if codepoint <= 0xffff {
        assert(raw.subrange(0, 6) =~= unit_escape(codepoint as int));
        lemma_unit_round_trip(raw, 0, codepoint as int);
    } else {
        let value = codepoint - 0x10000;
        let high = 0xd800 + value / 0x400;
        let low = 0xdc00 + value % 0x400;
        assert(raw.subrange(0, 6) =~= unit_escape(high));
        assert(raw.subrange(6, 12) =~= unit_escape(low));
        lemma_unit_round_trip(raw, 0, high);
        lemma_unit_round_trip(raw, 6, low);
        lemma_pair_is_one_escape(raw, high, low);
        assert(0x10000 + (high - 0xd800) * 0x400 + (low - 0xdc00) == codepoint);
    }
}

/// An escaped ASCII byte is read back as its character.
proof fn lemma_byte_escape_round_trip(byte: u8, tail: Seq<u8>)
    requires
        byte < 0x80,
        escape_text(byte).len() > 0,
    ensures
        escape_at(escape_text(byte) + tail) == Some((byte as char, escape_text(byte).len() as int)),
{
    let raw = escape_text(byte) + tail;
    if escape_text(byte).len() == 6 {
        lemma_hex_round_trip(byte as int / 16);
        lemma_hex_round_trip(byte as int % 16);
        lemma_hex_round_trip(0);
        assert(hex4_value(raw, 2) == Some(byte as int));
    }
}

/// Reading on past an escape.
proof fn lemma_read_past_escape(unit: Seq<u8>, character: char, tail: Seq<u8>, rest: Seq<char>)
    requires
        unit.len() > 0 && unit[0] == BACKSLASH,
        escape_at(unit + tail) == Some((character, unit.len() as int)),
        unescaped(tail) == Some(rest),
    ensures
        unescaped(unit + tail) == Some(seq![character] + rest),
{
    assert((unit + tail)[0] == BACKSLASH);
    assert((unit + tail).skip(unit.len() as int) =~= tail);
}

/// Reading on past a raw character: the text's first, which stands before `tail`.
proof fn lemma_read_past_scalar(bytes: Seq<u8>, tail: Seq<u8>, rest: Seq<char>)
    requires
        valid_first_scalar(bytes),
        bytes[0] != BACKSLASH,
        unescaped(tail) == Some(rest),
    ensures
        unescaped(bytes.take(length_of_first_scalar(bytes)) + tail) == Some(
            seq![decode_first_scalar(bytes) as char] + rest,
        ),
{
    let first = bytes.take(length_of_first_scalar(bytes));
    let raw = first + tail;
    assert(forall|i: int| 0 <= i < first.len() ==> raw[i] == bytes[i]);
    assert(raw[0] == bytes[0]);
    assert(pop_first_scalar(raw) =~= tail);
}

/// Reading on past an escaped ASCII byte.
proof fn lemma_read_past_byte_escape(byte: u8, tail: Seq<u8>, rest: Seq<char>)
    requires
        byte < 0x80,
        escape_text(byte).len() > 0,
        unescaped(tail) == Some(rest),
    ensures
        unescaped(escape_text(byte) + tail) == Some(seq![byte as char] + rest),
{
    let unit = escape_text(byte);
    lemma_byte_escape_round_trip(byte, tail);
    lemma_read_past_escape(unit, byte as char, tail, rest);
}

/// Reading on past an escaped character.
#[verifier::spinoff_prover]
proof fn lemma_read_past_scalar_escape(codepoint: u32, tail: Seq<u8>, rest: Seq<char>)
    requires
        vstd::utf8::is_scalar(codepoint),
        unescaped(tail) == Some(rest),
    ensures
        unescaped(scalar_escape(codepoint) + tail) == Some(seq![codepoint as char] + rest),
{
    let unit = scalar_escape(codepoint);
    lemma_scalar_escape_round_trip(codepoint, tail);
    lemma_read_past_escape(unit, codepoint as char, tail, rest);
}

/// An ASCII character's scalar value is its byte.
pub proof fn lemma_ascii_scalar(bytes: Seq<u8>)
    requires
        bytes.len() > 0 && bytes[0] < 0x80,
    ensures
        decode_first_scalar(bytes) == bytes[0] as u32,
        length_of_first_scalar(bytes) == 1,
{
    let byte = bytes[0];
    assert((byte & 0x7f) == byte) by (bit_vector)
        requires
            byte < 0x80,
    ;
}

/// Reading on past a written character gives it back.
proof fn lemma_read_past_unit(bytes: Seq<u8>, ascii: bool, tail: Seq<u8>, rest: Seq<char>)
    requires
        valid_first_scalar(bytes),
        unescaped(tail) == Some(rest),
    ensures
        unescaped(first_unit(bytes, ascii) + tail) == Some(seq![decode_first_scalar(bytes) as char] + rest),
{
    let byte = bytes[0];
    if byte < 0x80 {
        lemma_ascii_scalar(bytes);
        if escape_text(byte).len() > 0 {
            lemma_read_past_byte_escape(byte, tail, rest);
            assert(decode_first_scalar(bytes) as char == byte as char);
        } else {
            assert(first_unit(bytes, ascii) =~= bytes.take(1));
            lemma_read_past_scalar(bytes, tail, rest);
        }
    } else if ascii {
        lemma_first_scalar_is_a_character(bytes);
        lemma_read_past_scalar_escape(decode_first_scalar(bytes), tail, rest);
    } else {
        lemma_read_past_scalar(bytes, tail, rest);
    }
}

/// Reading a written text body gives back the text, raw or ASCII only: every character, whether it was escaped or not.
pub proof fn lemma_read_gives_back_what_was_written(bytes: Seq<u8>, ascii: bool)
    requires
        valid_utf8(bytes),
    ensures
        unescaped(text_body(bytes, ascii)) == Some(decode_utf8(bytes)),
    decreases bytes.len(),
{
    if bytes.len() == 0 {
        assert(text_body(bytes, ascii) =~= seq![]);
    } else {
        lemma_first_scalar(bytes);
        lemma_body_by_units(bytes, ascii);
        let rest = pop_first_scalar(bytes);
        lemma_read_gives_back_what_was_written(rest, ascii);
        lemma_read_past_unit(bytes, ascii, text_body(rest, ascii), decode_utf8(rest));
    }
}

/// A string's end does not depend on what stands before its start.
pub proof fn lemma_content_end_shifts(before: Seq<u8>, bytes: Seq<u8>, at: int)
    requires
        0 <= at,
    ensures
        content_end(before + bytes, before.len() + at) == match content_end(bytes, at) {
            Some(end) => Some(before.len() + end),
            None => None,
        },
    decreases bytes.len() - at,
{
    let whole = before + bytes;
    let here = before.len() + at;
    if at < bytes.len() {
        assert(whole[here] == bytes[at]);
        if at + 1 < bytes.len() {
            assert(whole[here + 1] == bytes[at + 1]);
        }
        if bytes[at] == BACKSLASH {
            let width: int = if at + 1 < bytes.len() && bytes[at + 1] == LOWER_U {
                6
            } else {
                2
            };
            if at + width <= bytes.len() {
                lemma_content_end_shifts(before, bytes, at + width);
            }
        } else if bytes[at] != QUOTE && bytes[at] >= 0x20 {
            lemma_content_end_shifts(before, bytes, at + 1);
        }
    }
}

/// Whether `unit` is one escape, or raw content: what a string's end is looked for past.
pub open spec fn passed_over(unit: Seq<u8>) -> bool {
    ||| unit.len() == 2 && unit[0] == BACKSLASH && unit[1] != LOWER_U
    ||| unit.len() == 6 && unit[0] == BACKSLASH && unit[1] == LOWER_U
    ||| forall|i: int|
        0 <= i < unit.len() ==> #[trigger] unit[i] != QUOTE && unit[i] != BACKSLASH && unit[i] >= 0x20
}

/// The end of a string is looked for past a unit of its content.
pub proof fn lemma_end_is_past_unit(unit: Seq<u8>, rest: Seq<u8>)
    requires
        passed_over(unit),
    ensures
        content_end(unit + rest, 0) == match content_end(rest, 0) {
            Some(end) => Some(unit.len() + end),
            None => None,
        },
    decreases unit.len(),
{
    let whole = unit + rest;
    lemma_content_end_shifts(unit, rest, 0);
    if unit.len() > 0 {
        assert(whole[0] == unit[0]);
        if unit[0] == BACKSLASH {
            assert(whole[1] == unit[1]);
        } else {
            let more = unit.skip(1);
            assert(whole =~= seq![unit[0]] + (more + rest));
            lemma_content_end_shifts(seq![unit[0]], more + rest, 0);
            assert forall|i: int| 0 <= i < more.len() implies #[trigger] more[i] != QUOTE && more[i] != BACKSLASH
                && more[i] >= 0x20 by {
                assert(more[i] == unit[i + 1]);
            }
            lemma_end_is_past_unit(more, rest);
        }
    } else {
        assert(whole =~= rest);
    }
}

/// A character above ASCII is written in bytes above ASCII.
proof fn lemma_raw_scalar_is_content(bytes: Seq<u8>)
    requires
        valid_first_scalar(bytes),
        bytes[0] >= 0x80,
    ensures
        passed_over(bytes.take(length_of_first_scalar(bytes))),
{
    let unit = bytes.take(length_of_first_scalar(bytes));
    assert forall|i: int| 0 <= i < unit.len() implies #[trigger] unit[i] != QUOTE && unit[i] != BACKSLASH && unit[i]
        >= 0x20 by {
        assert(unit[i] == bytes[i]);
    }
}

/// The end of a string is looked for past a written character.
proof fn lemma_end_is_past_written_unit(bytes: Seq<u8>, ascii: bool, rest: Seq<u8>)
    requires
        valid_first_scalar(bytes),
    ensures
        content_end(first_unit(bytes, ascii) + rest, 0) == match content_end(rest, 0) {
            Some(end) => Some(first_unit(bytes, ascii).len() + end),
            None => None,
        },
{
    let unit = first_unit(bytes, ascii);
    if bytes[0] < 0x80 {
        assert(passed_over(unit));
        lemma_end_is_past_unit(unit, rest);
    } else if ascii {
        let codepoint = decode_first_scalar(bytes);
        if codepoint <= 0xffff {
            lemma_end_is_past_unit(unit, rest);
        } else {
            let value = codepoint - 0x10000;
            let high = unit_escape(0xd800 + value / 0x400);
            let low = unit_escape(0xdc00 + value % 0x400);
            assert(unit + rest =~= high + (low + rest));
            lemma_end_is_past_unit(low, rest);
            lemma_end_is_past_unit(high, low + rest);
        }
    } else {
        lemma_raw_scalar_is_content(bytes);
        lemma_end_is_past_unit(unit, rest);
    }
}

/// A written text body closes at the quote behind it and nowhere before.
pub proof fn lemma_body_closes_at_its_quote(bytes: Seq<u8>, ascii: bool, behind: Seq<u8>)
    requires
        valid_utf8(bytes),
    ensures
        content_end(text_body(bytes, ascii) + seq![QUOTE] + behind, 0) == Some(text_body(bytes, ascii).len() as int),
    decreases bytes.len(),
{
    let body = text_body(bytes, ascii);
    let whole = body + seq![QUOTE] + behind;
    if bytes.len() == 0 {
        assert(body =~= seq![]);
        assert(whole[0] == QUOTE);
    } else {
        lemma_first_scalar(bytes);
        lemma_body_by_units(bytes, ascii);
        let rest = pop_first_scalar(bytes);
        let tail = text_body(rest, ascii) + seq![QUOTE] + behind;
        lemma_body_closes_at_its_quote(rest, ascii, behind);
        lemma_end_is_past_written_unit(bytes, ascii, tail);
        assert(whole =~= first_unit(bytes, ascii) + tail);
    }
}

/// A written string is read back whole, wherever it stands: its end is its own closing quote, and its content spells the
/// text it was written from.
pub proof fn lemma_written_string_is_read_back(before: Seq<u8>, bytes: Seq<u8>, ascii: bool, behind: Seq<u8>)
    requires
        valid_utf8(bytes),
    ensures
        ({
            let body = text_body(bytes, ascii);
            let whole = before + quoted(bytes, ascii) + behind;
            let start = before.len() as int + 1;
            &&& content_end(whole, start) == Some(start + body.len())
            &&& whole.subrange(start, start + body.len()) == body
            &&& unescaped(body) == Some(decode_utf8(bytes))
        }),
{
    let body = text_body(bytes, ascii);
    let whole = before + quoted(bytes, ascii) + behind;
    let lead = before + seq![QUOTE];
    let tail = body + seq![QUOTE] + behind;
    assert(whole =~= lead + tail);
    lemma_body_closes_at_its_quote(bytes, ascii, behind);
    lemma_content_end_shifts(lead, tail, 0);
    assert(whole.subrange(lead.len() as int, (lead.len() + body.len()) as int) =~= body);
    lemma_read_gives_back_what_was_written(bytes, ascii);
}

} // verus!
