//! The JSON string escape law this codec owns.
//!
//! Quote, backslash, `\b \f \n \r \t`, remaining C0 as `\u00XX`, and DEL as `\u007f`. Everything else (UTF-8 included)
//! passes through raw.

use vstd::prelude::*;

use crate::ascii::{BACKSLASH, LOWER_A, LOWER_B, LOWER_F, LOWER_N, LOWER_R, LOWER_T, LOWER_U, QUOTE, SLASH, ZERO};

verus! {

/// The lowercase hexadecimal digit for `n` in `0..16`.
pub open spec fn hex_digit(n: int) -> u8 {
    if n < 10 {
        (ZERO + n) as u8
    } else {
        (LOWER_A + (n - 10)) as u8
    }
}

/// The text a byte is written as inside a JSON string, for a byte that may not stand there raw; empty for a byte that
/// passes through.
pub open spec fn escape_text(byte: u8) -> Seq<u8> {
    if byte == QUOTE {
        seq![BACKSLASH, QUOTE]
    } else if byte == BACKSLASH {
        seq![BACKSLASH, BACKSLASH]
    } else if byte == 0x08 {
        seq![BACKSLASH, LOWER_B]
    } else if byte == 0x09 {
        seq![BACKSLASH, LOWER_T]
    } else if byte == 0x0a {
        seq![BACKSLASH, LOWER_N]
    } else if byte == 0x0c {
        seq![BACKSLASH, LOWER_F]
    } else if byte == 0x0d {
        seq![BACKSLASH, LOWER_R]
    } else if byte < 0x20 || byte == 0x7f {
        seq![BACKSLASH, LOWER_U, ZERO, ZERO, hex_digit(byte as int / 16), hex_digit(byte as int % 16)]
    } else {
        seq![]
    }
}

/// What one byte becomes inside a JSON string body.
pub open spec fn escaped_byte(byte: u8) -> Seq<u8> {
    if escape_text(byte).len() > 0 {
        escape_text(byte)
    } else {
        seq![byte]
    }
}

/// The JSON string body that spells `bytes`.
pub open spec fn escaped(bytes: Seq<u8>) -> Seq<u8>
    decreases bytes.len(),
{
    if bytes.len() == 0 {
        seq![]
    } else {
        escaped(bytes.drop_last()) + escaped_byte(bytes.last())
    }
}

/// What a simple escape's second byte stands for: the seven short forms plus solidus.
pub open spec fn simple_unescape(byte: u8) -> Option<char> {
    if byte == QUOTE {
        Some('"')
    } else if byte == BACKSLASH {
        Some('\\')
    } else if byte == SLASH {
        Some('/')
    } else if byte == LOWER_B {
        Some('\u{8}')
    } else if byte == LOWER_F {
        Some('\u{c}')
    } else if byte == LOWER_N {
        Some('\n')
    } else if byte == LOWER_R {
        Some('\r')
    } else if byte == LOWER_T {
        Some('\t')
    } else {
        None
    }
}

/// The lowercase hexadecimal digit for the low four bits of `nibble`.
fn hex_lower(nibble: u8) -> (digit: u8)
    requires
        nibble < 16,
    ensures
        digit == hex_digit(nibble as int),
{
    if nibble < 10 {
        ZERO + nibble
    } else {
        LOWER_A + (nibble - 10)
    }
}

/// One byte's escape entry: the escape's length and its text, zero padded.
pub fn escape_entry(byte: u8) -> (entry: (u8, [u8; 6]))
    ensures
        entry.0 == escape_text(byte).len(),
        forall|i: int| 0 <= i < entry.0 ==> entry.1@[i] == escape_text(byte)[i],
        forall|i: int| entry.0 <= i < 6 ==> entry.1@[i] == 0,
{
    match byte {
        QUOTE => (2, [BACKSLASH, QUOTE, 0, 0, 0, 0]),
        BACKSLASH => (2, [BACKSLASH, BACKSLASH, 0, 0, 0, 0]),
        0x08 => (2, [BACKSLASH, LOWER_B, 0, 0, 0, 0]),
        0x09 => (2, [BACKSLASH, LOWER_T, 0, 0, 0, 0]),
        0x0a => (2, [BACKSLASH, LOWER_N, 0, 0, 0, 0]),
        0x0c => (2, [BACKSLASH, LOWER_F, 0, 0, 0, 0]),
        0x0d => (2, [BACKSLASH, LOWER_R, 0, 0, 0, 0]),
        0x00..=0x1f | 0x7f => (6, [BACKSLASH, LOWER_U, ZERO, ZERO, hex_lower(byte / 16), hex_lower(byte % 16)]),
        _ => (0, [0, 0, 0, 0, 0, 0]),
    }
}

/// One byte's escape under this crate's JSON string law: `(length, text)` for a byte that must be escaped — `\"`,
/// `\\`, the `\b \f \n \r \t` short forms, every C0 control as `\u00XX`, and DEL as `\u007f` — and a zero length for
/// a byte that passes through raw (UTF-8 included).
#[must_use]
pub fn json_escape_byte(byte: u8) -> (entry: (u8, [u8; 6]))
    ensures
        entry.0 == escape_text(byte).len(),
        forall|i: int| 0 <= i < entry.0 ==> entry.1@[i] == escape_text(byte)[i],
        forall|i: int| entry.0 <= i < 6 ==> entry.1@[i] == 0,
{
    escape_entry(byte)
}

/// The six JSON simple escapes plus solidus: the unescape twin of [`json_escape_byte`]'s short forms. `None` for `\u`
/// and every non-escape byte.
#[must_use]
pub fn json_simple_unescape(byte: u8) -> (character: Option<char>)
    ensures
        character == simple_unescape(byte),
{
    match byte {
        QUOTE => Some('"'),
        BACKSLASH => Some('\\'),
        SLASH => Some('/'),
        LOWER_B => Some('\u{8}'),
        LOWER_F => Some('\u{c}'),
        LOWER_N => Some('\n'),
        LOWER_R => Some('\r'),
        LOWER_T => Some('\t'),
        _ => None,
    }
}

/// Appends one byte escaped for a JSON string body.
pub fn push_json_escaped_byte(out: &mut Vec<u8>, byte: u8)
    ensures
        final(out)@ == old(out)@ + escaped_byte(byte),
{
    let (len, escape) = json_escape_byte(byte);
    if len > 0 {
        let mut i: u8 = 0;
        while i < len
            invariant
                i <= len <= 6,
                len == escape_text(byte).len(),
                forall|k: int| 0 <= k < len ==> escape@[k] == escape_text(byte)[k],
                out@ == old(out)@ + escape_text(byte).take(i as int),
            decreases len - i,
        {
            out.push(escape[i as usize]);
            i += 1;
            assert(escape_text(byte).take(i as int) =~= escape_text(byte).take(i - 1).push(escape_text(byte)[i - 1]));
        }
        assert(escape_text(byte).take(len as int) =~= escape_text(byte));
    } else {
        out.push(byte);
        assert(out@ =~= old(out)@ + seq![byte]);
    }
}

/// Appends `bytes` escaped for a JSON string body; see [`json_escape_byte`]. The quote, the backslash, every C0 control
/// (short forms `\b \f \n \r \t`, the rest as `\u00XX`), and DEL as `\u007f`; everything else (UTF-8 included) passes
/// through raw.
pub fn push_json_escaped(out: &mut Vec<u8>, bytes: &[u8])
    ensures
        final(out)@ == old(out)@ + escaped(bytes@),
{
    let mut i: usize = 0;
    assert(bytes@.take(0) =~= seq![]);
    while i < bytes.len()
        invariant
            i <= bytes.len(),
            out@ == old(out)@ + escaped(bytes@.take(i as int)),
        decreases bytes.len() - i,
    {
        push_json_escaped_byte(out, bytes[i]);
        i += 1;
        assert(bytes@.take(i as int).drop_last() =~= bytes@.take(i - 1));
    }
    assert(bytes@.take(bytes@.len() as int) =~= bytes@);
}

/// A concatenation is escaped piece by piece.
pub proof fn lemma_escaped_concat(left: Seq<u8>, right: Seq<u8>)
    ensures
        escaped(left + right) == escaped(left) + escaped(right),
    decreases right.len(),
{
    if right.len() == 0 {
        assert(left + right =~= left);
    } else {
        assert((left + right).drop_last() =~= left + right.drop_last());
        lemma_escaped_concat(left, right.drop_last());
        assert(escaped(left + right) =~= escaped(left) + escaped(right));
    }
}

/// Escaping never shortens a text.
pub proof fn lemma_escaped_is_no_shorter(bytes: Seq<u8>)
    ensures
        escaped(bytes).len() >= bytes.len(),
    decreases bytes.len(),
{
    if bytes.len() > 0 {
        lemma_escaped_is_no_shorter(bytes.drop_last());
    }
}

/// An escaped text holds no control byte and no DEL, whatever it spells.
pub proof fn lemma_escaped_holds_no_control(bytes: Seq<u8>, at: int)
    requires
        0 <= at < escaped(bytes).len(),
    ensures
        escaped(bytes)[at] >= 0x20,
        escaped(bytes)[at] != 0x7f,
    decreases bytes.len(),
{
    let head = escaped(bytes.drop_last());
    if at < head.len() {
        lemma_escaped_holds_no_control(bytes.drop_last(), at);
    } else {
        let own = escaped_byte(bytes.last());
        assert(escaped(bytes)[at] == own[at - head.len()]);
    }
}

} // verus!
