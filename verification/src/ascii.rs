//! Named ASCII bytes.

use vstd::prelude::*;

verus! {

/// The byte of horizontal tab.
pub const TAB: u8 = 0x09;

/// The byte of line feed.
pub const LF: u8 = 0x0a;

/// The byte of carriage return.
pub const CR: u8 = 0x0d;

/// The byte of space.
pub const SPACE: u8 = 0x20;

/// The byte of `"`.
pub const QUOTE: u8 = 0x22;

/// The byte of `$`.
pub const DOLLAR: u8 = 0x24;

/// The byte of `'`.
pub const APOSTROPHE: u8 = 0x27;

/// The byte of `*`.
pub const STAR: u8 = 0x2a;

/// The byte of `+`.
pub const PLUS: u8 = 0x2b;

/// The byte of `,`.
pub const COMMA: u8 = 0x2c;

/// The byte of `-`.
pub const MINUS: u8 = 0x2d;

/// The byte of `.`.
pub const DOT: u8 = 0x2e;

/// The byte of `/`.
pub const SLASH: u8 = 0x2f;

/// The byte of `0`.
pub const ZERO: u8 = 0x30;

/// The byte of `1`.
pub const ONE: u8 = 0x31;

/// The byte of `9`.
pub const NINE: u8 = 0x39;

/// The byte of `:`.
pub const COLON: u8 = 0x3a;

/// The byte of `A`.
pub const UPPER_A: u8 = 0x41;

/// The byte of `E`.
pub const UPPER_E: u8 = 0x45;

/// The byte of `F`.
pub const UPPER_F: u8 = 0x46;

/// The byte of `X`.
pub const UPPER_X: u8 = 0x58;

/// The byte of `Z`.
pub const UPPER_Z: u8 = 0x5a;

/// The byte of `[`.
pub const OPEN_BRACKET: u8 = 0x5b;

/// The byte of `\`.
pub const BACKSLASH: u8 = 0x5c;

/// The byte of `]`.
pub const CLOSE_BRACKET: u8 = 0x5d;

/// The byte of `_`.
pub const UNDERSCORE: u8 = 0x5f;

/// The byte of `a`.
pub const LOWER_A: u8 = 0x61;

/// The byte of `b`.
pub const LOWER_B: u8 = 0x62;

/// The byte of `e`.
pub const LOWER_E: u8 = 0x65;

/// The byte of `f`.
pub const LOWER_F: u8 = 0x66;

/// The byte of `i`.
pub const LOWER_I: u8 = 0x69;

/// The byte of `l`.
pub const LOWER_L: u8 = 0x6c;

/// The byte of `n`.
pub const LOWER_N: u8 = 0x6e;

/// The byte of `r`.
pub const LOWER_R: u8 = 0x72;

/// The byte of `s`.
pub const LOWER_S: u8 = 0x73;

/// The byte of `t`.
pub const LOWER_T: u8 = 0x74;

/// The byte of `u`.
pub const LOWER_U: u8 = 0x75;

/// The byte of `x`.
pub const LOWER_X: u8 = 0x78;

/// The byte of `y`.
pub const LOWER_Y: u8 = 0x79;

/// The byte of `z`.
pub const LOWER_Z: u8 = 0x7a;

/// The byte of `{`.
pub const OPEN_BRACE: u8 = 0x7b;

/// The byte of `}`.
pub const CLOSE_BRACE: u8 = 0x7d;

} // verus!
