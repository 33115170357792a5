//! Failure kinds and the diagnostic texts the codecs raise.

use vstd::prelude::*;

use crate::ascii::{SLASH, STAR};

verus! {

/// Why an operation failed.
#[derive(Clone, Copy, Debug, PartialEq, Eq, Structural)]
pub enum CodecFailureKind {
    /// The input is not what the grammar or the supported range accepts.
    InvalidInput,
    /// A size or an offset outgrew the width it is kept in.
    Overflow,
    /// The request names options, a format, or a dialect the codec does not serve.
    RequirementMismatch,
    /// The request names a route the provider does not have.
    ProviderRouteMismatch,
    /// Containers nest deeper than the request allows.
    NestingLimit,
    /// A raw root string holds a NUL byte where NUL ends every item.
    RawNulByte,
    /// A payload has a shape the codec does not represent.
    UnsupportedRepresentation,
    /// A state that a caller must never hand over.
    InternalContractViolation,
}

/// A missing comma.
pub const EXPECTED_COMMA: &'static str = "expected-comma";

pub const MSG_COMMA_OR_OBJECT: &'static str = "expected `,` or `}`";

pub const MSG_COMMA_OR_ARRAY: &'static str = "expected `,` or `]`";

/// A missing colon.
pub const EXPECTED_COLON: &'static str = "expected-colon";

pub const MSG_COLON: &'static str = "expected `:`";

/// A comma before a closing delimiter, where the grammar has none.
pub const TRAILING_COMMA: &'static str = "trailing-comma";

pub const MSG_TRAILING_COMMA: &'static str = "trailing comma is not permitted";

/// Anything but whitespace behind the value.
pub const TRAILING_CONTENT: &'static str = "trailing-content";

pub const MSG_TRAILING_CONTENT: &'static str = "trailing content after JSON value";

/// A bare word that is no literal.
pub const INVALID_LITERAL: &'static str = "invalid-literal";

pub const MSG_INVALID_LITERAL: &'static str = "invalid JSON literal";

/// No value where one must stand.
pub const EXPECTED_VALUE: &'static str = "expected-value";

pub const MSG_EXPECTED_VALUE: &'static str = "expected one complete JSON value";

/// A string that the input ends inside.
pub const UNTERMINATED_STRING: &'static str = "unterminated-string";

pub const MSG_UNTERMINATED_STRING: &'static str = "unterminated JSON string";

/// A number the grammar does not spell.
pub const INVALID_NUMBER: &'static str = "invalid-number";

pub const MSG_INVALID_NUMBER: &'static str = "invalid JSON number";

/// An escape the grammar does not spell.
pub const INVALID_ESCAPE: &'static str = "invalid-escape";

pub const MSG_INVALID_ESCAPE: &'static str = "invalid JSON escape";

pub const MSG_INVALID_ESCAPE_JSON5: &'static str = "invalid JSON5 escape";

/// Bytes that are no UTF-8.
pub const INVALID_UTF8: &'static str = "invalid-utf8";

pub const MSG_INVALID_UTF8: &'static str = "input is not valid UTF-8";

/// No key where one must stand.
pub const MSG_EXPECTED_KEY: &'static str = "expected an object string key";

pub const MSG_EXPECTED_KEY_AT_COMMENT: &'static str =
    "expected an object string key (a `//` or `/*` comment needs --input-format jsonc)";

pub const MSG_EXPECTED_VALUE_AT_COMMENT: &'static str =
    "expected one complete JSON value (a `//` or `/*` comment needs --input-format jsonc)";

/// A number whose exact scale is out of range.
pub const NUMBER_SCALE_OUT_OF_RANGE: &'static str = "number-scale-out-of-range";

pub const MSG_NUMBER_SCALE: &'static str = "JSON number exponent is outside the supported exact decimal range";

pub const MSG_HEX_SCALE: &'static str = "JSON5 hex literal is outside the supported exact conversion range";

/// Whether a `//` or `/*` comment opens at `cursor`.
pub open spec fn comment_opens(bytes: Seq<u8>, cursor: int) -> bool {
    0 <= cursor && cursor + 1 < bytes.len() && bytes[cursor] == SLASH && (bytes[cursor + 1] == SLASH || bytes[cursor + 1]
        == STAR)
}

/// Whether the bytes at `cursor` open a `//` or `/*` comment.
pub fn opens_jsonc_comment(bytes: &[u8], cursor: usize) -> (opens: bool)
    ensures
        opens == comment_opens(bytes@, cursor as int),
{
    bytes.len() > 1 && cursor < bytes.len() - 1 && bytes[cursor] == SLASH && (bytes[cursor + 1] == SLASH || bytes[cursor
        + 1] == STAR)
}

/// The expected-key diagnostic text. When the offending bytes open a comment, the text names the dialect that would
/// accept it: a hint, never auto-selection.
pub fn expected_key_message(bytes: &[u8], cursor: usize) -> (message: &'static str)
    ensures
        message@ == if comment_opens(bytes@, cursor as int) {
            MSG_EXPECTED_KEY_AT_COMMENT@
        } else {
            MSG_EXPECTED_KEY@
        },
{
    if opens_jsonc_comment(bytes, cursor) {
        MSG_EXPECTED_KEY_AT_COMMENT
    } else {
        MSG_EXPECTED_KEY
    }
}

/// The expected-value twin of [`expected_key_message`].
pub fn expected_value_message(bytes: &[u8], cursor: usize) -> (message: &'static str)
    ensures
        message@ == if comment_opens(bytes@, cursor as int) {
            MSG_EXPECTED_VALUE_AT_COMMENT@
        } else {
            MSG_EXPECTED_VALUE@
        },
{
    if opens_jsonc_comment(bytes, cursor) {
        MSG_EXPECTED_VALUE_AT_COMMENT
    } else {
        MSG_EXPECTED_VALUE
    }
}

/// One diagnosed refusal of the input: what is wrong, and the bytes it is about.
#[derive(Clone, Copy, Debug)]
pub struct Diagnosis {
    /// Always the input's fault.
    pub kind: CodecFailureKind,
    /// Where the labelled bytes start.
    pub start: usize,
    /// Where they end.
    pub end: usize,
    /// The stable code.
    pub code: &'static str,
    /// The text for people.
    pub message: &'static str,
}

/// Diagnoses the byte at `offset` of `bytes`; at the end of the input the label is empty.
pub fn invalid(bytes: &[u8], offset: usize, code: &'static str, message: &'static str) -> (diagnosis: Diagnosis)
    ensures
        diagnosis.kind == CodecFailureKind::InvalidInput,
        diagnosis.start == offset,
        diagnosis.end == if offset < bytes.len() {
            offset + 1
        } else {
            offset as int
        },
        diagnosis.code@ == code@,
        diagnosis.message@ == message@,
{
    let end = if offset < bytes.len() {
        offset + 1
    } else {
        offset
    };
    Diagnosis { kind: CodecFailureKind::InvalidInput, start: offset, end, code, message }
}

/// Diagnoses a number that the grammar accepts and whose exponent places its exact scale out of range.
pub fn unsupported_number(start: usize, end: usize) -> (diagnosis: Diagnosis)
    ensures
        diagnosis.kind == CodecFailureKind::InvalidInput,
        diagnosis.start == start && diagnosis.end == end,
        diagnosis.code@ == NUMBER_SCALE_OUT_OF_RANGE@,
        diagnosis.message@ == MSG_NUMBER_SCALE@,
{
    Diagnosis {
        kind: CodecFailureKind::InvalidInput,
        start,
        end,
        code: NUMBER_SCALE_OUT_OF_RANGE,
        message: MSG_NUMBER_SCALE,
    }
}

/// The hex twin of [`unsupported_number`]: a hex literal beyond the exact conversion bound is refused rather than
/// silently rounded.
pub fn unsupported_hex_number(start: usize, end: usize) -> (diagnosis: Diagnosis)
    ensures
        diagnosis.kind == CodecFailureKind::InvalidInput,
        diagnosis.start == start && diagnosis.end == end,
        diagnosis.code@ == NUMBER_SCALE_OUT_OF_RANGE@,
        diagnosis.message@ == MSG_HEX_SCALE@,
{
    Diagnosis {
        kind: CodecFailureKind::InvalidInput,
        start,
        end,
        code: NUMBER_SCALE_OUT_OF_RANGE,
        message: MSG_HEX_SCALE,
    }
}

} // verus!
