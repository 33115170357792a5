//! The JSON number machine: one lexical state transition per byte, the bulk digit run, and the plans that turn a
//! completed number into a coefficient range and a decimal scale.

use vstd::prelude::*;

use crate::ascii::{
    DOT, LOWER_A, LOWER_E, LOWER_F, LOWER_X, MINUS, NINE, ONE, PLUS, UPPER_A, UPPER_E, UPPER_F, UPPER_X, ZERO,
};

use crate::error::CodecFailureKind;

verus! {

/// Where in a number's spelling the machine stands.
#[derive(Clone, Copy, Debug, PartialEq, Eq, Structural)]
pub enum NumberLex {
    /// Before the first byte.
    Start,
    /// After the sign, before the integer part.
    IntegerStart,
    /// After a leading zero.
    Zero,
    /// Inside the integer part.
    Integer,
    /// After the point, before a fraction digit.
    FractionStart,
    /// Inside the fraction.
    Fraction,
    /// After the exponent marker.
    ExponentStart,
    /// After the exponent's sign.
    ExponentSign,
    /// Inside the exponent's digits.
    Exponent,
    /// Inside a JSON5 hex integer, after the `0x`.
    Hex,
}

/// One number's lexical facts, gathered byte by byte.
#[derive(Clone, Copy, Debug, PartialEq, Eq, Structural)]
pub struct NumberState {
    /// Offset of the number's first byte.
    pub start: u32,
    /// Offset of the byte the machine reads next. The caller advances it past each byte the machine takes.
    pub cursor: u32,
    /// Where in the spelling the machine stands.
    pub lex: NumberLex,
    /// Whether the number carries a `-`.
    pub negative: bool,
    /// How many coefficient digits (integer and fraction) were read.
    pub digit_count: u32,
    /// Index among the coefficient digits of the first that is not zero.
    pub first_nonzero: Option<u32>,
    /// Offset of that digit.
    pub first_nonzero_offset: Option<u32>,
    /// Index among the coefficient digits of the last that is not zero.
    pub last_nonzero: Option<u32>,
    /// Offset of that digit.
    pub last_nonzero_offset: Option<u32>,
    /// Offset of the last coefficient digit.
    pub last_digit_offset: Option<u32>,
    /// How many of the coefficient digits stand after the point.
    pub fraction_digits: u32,
    /// Whether the spelling has a point or an exponent.
    pub has_fraction_or_exponent: bool,
    /// The exponent's magnitude.
    pub exponent: u128,
    /// Whether the exponent carries a `-`.
    pub exponent_negative: bool,
    /// Whether the exponent's magnitude outgrew its accumulator.
    pub exponent_overflow: bool,
    /// Whether the spelling is one strict JSON does not have.
    pub lenient_spelling: bool,
}

/// What one byte does to the machine.
#[derive(Clone, Copy, Debug, PartialEq, Eq, Structural)]
pub enum LexStep {
    /// The byte belongs to the number, and the machine moves on.
    Take(NumberLex),
    /// The byte does not continue the number.
    Stop,
    /// The byte makes the number malformed: a digit after a leading zero.
    Refuse,
}

/// An ASCII decimal digit.
pub open spec fn is_digit(byte: u8) -> bool {
    ZERO <= byte <= NINE
}

/// An ASCII hexadecimal digit.
pub open spec fn is_hex_digit(byte: u8) -> bool {
    is_digit(byte) || LOWER_A <= byte <= LOWER_F || UPPER_A <= byte <= UPPER_F
}

/// An exponent marker.
pub open spec fn is_exponent_marker(byte: u8) -> bool {
    byte == LOWER_E || byte == UPPER_E
}

/// Where the integer part's first byte leads; `extended` arms a point right after the sign.
pub open spec fn integer_start_step(byte: u8, extended: bool) -> LexStep {
    if byte == ZERO {
        LexStep::Take(NumberLex::Zero)
    } else if is_digit(byte) {
        LexStep::Take(NumberLex::Integer)
    } else if extended && byte == DOT {
        LexStep::Take(NumberLex::FractionStart)
    } else {
        LexStep::Stop
    }
}

/// The number grammar as a transition: where `byte` leads from `lex`. `has_digits` tells whether a coefficient digit was
/// read; `lenient` and `json5` arm the spellings strict JSON does not have.
pub open spec fn lex_step(lex: NumberLex, byte: u8, has_digits: bool, lenient: bool, json5: bool) -> LexStep {
    match lex {
        NumberLex::Start => if byte == MINUS || ((lenient || json5) && byte == PLUS) {
            LexStep::Take(NumberLex::IntegerStart)
        } else {
            integer_start_step(byte, lenient || json5)
        },
        NumberLex::IntegerStart => integer_start_step(byte, lenient || json5),
        NumberLex::Zero => if byte == DOT {
            LexStep::Take(NumberLex::FractionStart)
        } else if is_exponent_marker(byte) {
            LexStep::Take(NumberLex::ExponentStart)
        } else if json5 && (byte == LOWER_X || byte == UPPER_X) {
            LexStep::Take(NumberLex::Hex)
        } else if is_digit(byte) {
            if lenient {
                LexStep::Take(NumberLex::Integer)
            } else {
                LexStep::Refuse
            }
        } else {
            LexStep::Stop
        },
        NumberLex::Integer => if is_digit(byte) {
            LexStep::Take(NumberLex::Integer)
        } else if byte == DOT {
            LexStep::Take(NumberLex::FractionStart)
        } else if is_exponent_marker(byte) {
            LexStep::Take(NumberLex::ExponentStart)
        } else {
            LexStep::Stop
        },
        NumberLex::FractionStart => if is_digit(byte) {
            LexStep::Take(NumberLex::Fraction)
        } else if (lenient || json5) && has_digits && is_exponent_marker(byte) {
            LexStep::Take(NumberLex::ExponentStart)
        } else {
            LexStep::Stop
        },
        NumberLex::Fraction => if is_digit(byte) {
            LexStep::Take(NumberLex::Fraction)
        } else if is_exponent_marker(byte) {
            LexStep::Take(NumberLex::ExponentStart)
        } else {
            LexStep::Stop
        },
        NumberLex::ExponentStart => if byte == PLUS || byte == MINUS {
            LexStep::Take(NumberLex::ExponentSign)
        } else if is_digit(byte) {
            LexStep::Take(NumberLex::Exponent)
        } else {
            LexStep::Stop
        },
        NumberLex::ExponentSign | NumberLex::Exponent => if is_digit(byte) {
            LexStep::Take(NumberLex::Exponent)
        } else {
            LexStep::Stop
        },
        NumberLex::Hex => if is_hex_digit(byte) {
            LexStep::Take(NumberLex::Hex)
        } else {
            LexStep::Stop
        },
    }
}

impl NumberState {
    /// The state with one more coefficient digit, read at the cursor.
    pub open spec fn with_digit(self, byte: u8, fractional: bool) -> NumberState {
        let nonzero = byte != ZERO;
        let first = nonzero && self.first_nonzero is None;
        NumberState {
            digit_count: (self.digit_count + 1) as u32,
            last_digit_offset: Some(self.cursor),
            first_nonzero: if first {
                Some(self.digit_count)
            } else {
                self.first_nonzero
            },
            first_nonzero_offset: if first {
                Some(self.cursor)
            } else {
                self.first_nonzero_offset
            },
            last_nonzero: if nonzero {
                Some(self.digit_count)
            } else {
                self.last_nonzero
            },
            last_nonzero_offset: if nonzero {
                Some(self.cursor)
            } else {
                self.last_nonzero_offset
            },
            fraction_digits: if fractional {
                (self.fraction_digits + 1) as u32
            } else {
                self.fraction_digits
            },
            ..self
        }
    }

    /// The state with a run of coefficient digits, each read at the cursor and the cursor moved past it.
    pub open spec fn with_digits(self, digits: Seq<u8>, fractional: bool) -> NumberState
        decreases digits.len(),
    {
        if digits.len() == 0 {
            self
        } else {
            let before = self.with_digits(digits.drop_last(), fractional);
            NumberState { cursor: (before.cursor + 1) as u32, ..before.with_digit(digits.last(), fractional) }
        }
    }

    /// The state with one more exponent digit. Past the accumulator's range the magnitude is only known to be too large.
    pub open spec fn with_exponent_digit(self, byte: u8) -> NumberState {
        let value = self.exponent * 10 + (byte - ZERO);
        if self.exponent_overflow {
            self
        } else if value <= u128::MAX {
            NumberState { exponent: value as u128, ..self }
        } else {
            NumberState { exponent_overflow: true, ..self }
        }
    }

    /// Whether one more coefficient digit outgrows the digit counters.
    pub open spec fn digits_full(self, fractional: bool) -> bool {
        self.digit_count == u32::MAX || (fractional && self.fraction_digits == u32::MAX)
    }

    /// Whether a byte that leads to `next` is a coefficient digit.
    pub open spec fn reads_digit(self, next: NumberLex) -> bool {
        ||| next == NumberLex::Zero
        ||| next == NumberLex::Integer
        ||| next == NumberLex::Fraction
        ||| next == NumberLex::Hex && self.lex == NumberLex::Hex
    }

    /// The state after the machine took `byte` and moved to `next`.
    pub open spec fn taken(self, byte: u8, next: NumberLex) -> NumberState {
        let opening = self.lex == NumberLex::Start || self.lex == NumberLex::IntegerStart;
        let counted = if self.reads_digit(next) {
            self.with_digit(byte, next == NumberLex::Fraction)
        } else if next == NumberLex::Exponent {
            self.with_exponent_digit(byte)
        } else {
            self
        };
        NumberState {
            lex: next,
            negative: self.negative || (self.lex == NumberLex::Start && byte == MINUS),
            exponent_negative: self.exponent_negative || (self.lex == NumberLex::ExponentStart && byte == MINUS),
            has_fraction_or_exponent: self.has_fraction_or_exponent || next == NumberLex::FractionStart || (next
                == NumberLex::ExponentStart && (self.lex == NumberLex::Zero || self.lex == NumberLex::Integer)),
            // A leading `+` or point, a digit after a leading zero, and an exponent right after the point.
            lenient_spelling: self.lenient_spelling || (opening && (byte == PLUS || byte == DOT)) || (self.lex
                == NumberLex::Zero && next == NumberLex::Integer) || (self.lex == NumberLex::FractionStart && next
                == NumberLex::ExponentStart),
            ..counted
        }
    }

    /// The state after the machine was offered a byte it does not take: a machine that had not started stands past its
    /// sign.
    pub open spec fn stopped(self) -> NumberState {
        if self.lex == NumberLex::Start {
            NumberState { lex: NumberLex::IntegerStart, ..self }
        } else {
            self
        }
    }

    /// A number that starts at `offset`; `negative` when its sign was read already.
    pub fn start_at(offset: usize, negative: bool) -> (started: Result<NumberState, CodecFailureKind>)
        ensures
            match started {
                Ok(state) => {
                    &&& offset <= u32::MAX
                    &&& state.start == offset
                    &&& state.cursor == offset
                    &&& state.lex == NumberLex::Start
                    &&& state.negative == negative
                    &&& state.untouched()
                },
                Err(kind) => offset > u32::MAX && kind == CodecFailureKind::Overflow,
            },
    {
        let at = match offset_u32(offset) {
            Ok(at) => at,
            Err(kind) => return Err(kind),
        };
        Ok(
            NumberState {
                start: at,
                cursor: at,
                lex: NumberLex::Start,
                negative,
                digit_count: 0,
                first_nonzero: None,
                first_nonzero_offset: None,
                last_nonzero: None,
                last_nonzero_offset: None,
                last_digit_offset: None,
                fraction_digits: 0,
                has_fraction_or_exponent: false,
                exponent: 0,
                exponent_negative: false,
                exponent_overflow: false,
                lenient_spelling: false,
            },
        )
    }

    /// No digit, point, or exponent has been read.
    pub open spec fn untouched(self) -> bool {
        &&& self.digit_count == 0
        &&& self.first_nonzero is None
        &&& self.first_nonzero_offset is None
        &&& self.last_nonzero is None
        &&& self.last_nonzero_offset is None
        &&& self.last_digit_offset is None
        &&& self.fraction_digits == 0
        &&& !self.has_fraction_or_exponent
        &&& self.exponent == 0
        &&& !self.exponent_negative
        &&& !self.exponent_overflow
        &&& !self.lenient_spelling
    }

    /// Offset of the number's first byte.
    pub fn start_usize(&self) -> (offset: usize)
        ensures
            offset == self.start,
    {
        self.start as usize
    }

    /// Offset of the byte the machine reads next.
    pub fn cursor_usize(&self) -> (offset: usize)
        ensures
            offset == self.cursor,
    {
        self.cursor as usize
    }
}

/// An offset in the width the number state keeps it in.
pub fn offset_u32(offset: usize) -> (narrow: Result<u32, CodecFailureKind>)
    ensures
        narrow == if offset <= u32::MAX {
            Ok(offset as u32)
        } else {
            Err::<u32, CodecFailureKind>(CodecFailureKind::Overflow)
        },
{
    if offset <= u32::MAX as usize {
        Ok(offset as u32)
    } else {
        Err(CodecFailureKind::Overflow)
    }
}

/// Counts one coefficient digit read at the cursor. A refusal leaves the state as it was.
fn push_digit(state: &mut NumberState, byte: u8, fractional: bool) -> (pushed: Result<(), CodecFailureKind>)
    ensures
        match pushed {
            Ok(_) => !old(state).digits_full(fractional) && *final(state) == old(state).with_digit(byte, fractional),
            Err(kind) => old(state).digits_full(fractional) && kind == CodecFailureKind::Overflow && *final(state) == *old(
                state,
            ),
        },
{
    let index = state.digit_count;
    if index == u32::MAX || (fractional && state.fraction_digits == u32::MAX) {
        return Err(CodecFailureKind::Overflow);
    }
    state.digit_count = index + 1;
    state.last_digit_offset = Some(state.cursor);
    if byte != ZERO {
        if state.first_nonzero.is_none() {
            state.first_nonzero = Some(index);
            state.first_nonzero_offset = Some(state.cursor);
        }
        state.last_nonzero = Some(index);
        state.last_nonzero_offset = Some(state.cursor);
    }
    if fractional {
        state.fraction_digits = state.fraction_digits + 1;
    }
    Ok(())
}

/// Folds one digit into the exponent's magnitude.
pub fn push_exponent(state: &mut NumberState, byte: u8)
    requires
        is_digit(byte),
    ensures
        *final(state) == old(state).with_exponent_digit(byte),
{
    if !state.exponent_overflow {
        let digit = (byte - ZERO) as u128;
        match state.exponent.checked_mul(10) {
            Some(shifted) => match shifted.checked_add(digit) {
                Some(value) => state.exponent = value,
                None => state.exponent_overflow = true,
            },
            None => state.exponent_overflow = true,
        }
    }
}

/// Where `byte` leads from `lex`.
pub fn next_lex(lex: NumberLex, byte: u8, has_digits: bool, lenient: bool, json5: bool) -> (step: LexStep)
    ensures
        step == lex_step(lex, byte, has_digits, lenient, json5),
{
    let extended = lenient || json5;
    match lex {
        NumberLex::Start => {
            if byte == MINUS || (extended && byte == PLUS) {
                LexStep::Take(NumberLex::IntegerStart)
            } else {
                next_from_integer_start(byte, extended)
            }
        }
        NumberLex::IntegerStart => next_from_integer_start(byte, extended),
        NumberLex::Zero => match byte {
            DOT => LexStep::Take(NumberLex::FractionStart),
            LOWER_E | UPPER_E => LexStep::Take(NumberLex::ExponentStart),
            // The JSON5 hex arm: `0x`/`0X` opens a hex integer.
            LOWER_X | UPPER_X => {
                if json5 {
                    LexStep::Take(NumberLex::Hex)
                } else {
                    LexStep::Stop
                }
            }
            // A digit after a leading zero (`01`, `007`) is a lenient spelling of the same integer.
            ZERO..=NINE => {
                if lenient {
                    LexStep::Take(NumberLex::Integer)
                } else {
                    LexStep::Refuse
                }
            }
            _ => LexStep::Stop,
        },
        NumberLex::Integer => match byte {
            ZERO..=NINE => LexStep::Take(NumberLex::Integer),
            DOT => LexStep::Take(NumberLex::FractionStart),
            LOWER_E | UPPER_E => LexStep::Take(NumberLex::ExponentStart),
            _ => LexStep::Stop,
        },
        NumberLex::FractionStart => match byte {
            ZERO..=NINE => LexStep::Take(NumberLex::Fraction),
            // An exponent right after a bare point (`1.e5`) still needs a digit somewhere before it, so `.e5` stops here
            // instead of completing as zero.
            LOWER_E | UPPER_E => {
                if extended && has_digits {
                    LexStep::Take(NumberLex::ExponentStart)
                } else {
                    LexStep::Stop
                }
            }
            _ => LexStep::Stop,
        },
        NumberLex::Fraction => match byte {
            ZERO..=NINE => LexStep::Take(NumberLex::Fraction),
            LOWER_E | UPPER_E => LexStep::Take(NumberLex::ExponentStart),
            _ => LexStep::Stop,
        },
        NumberLex::ExponentStart => match byte {
            PLUS | MINUS => LexStep::Take(NumberLex::ExponentSign),
            ZERO..=NINE => LexStep::Take(NumberLex::Exponent),
            _ => LexStep::Stop,
        },
        NumberLex::ExponentSign | NumberLex::Exponent => match byte {
            ZERO..=NINE => LexStep::Take(NumberLex::Exponent),
            _ => LexStep::Stop,
        },
        NumberLex::Hex => match byte {
            ZERO..=NINE | LOWER_A..=LOWER_F | UPPER_A..=UPPER_F => LexStep::Take(NumberLex::Hex),
            _ => LexStep::Stop,
        },
    }
}

/// Where the integer part's first byte leads.
fn next_from_integer_start(byte: u8, extended: bool) -> (step: LexStep)
    ensures
        step == integer_start_step(byte, extended),
{
    match byte {
        ZERO => LexStep::Take(NumberLex::Zero),
        ONE..=NINE => LexStep::Take(NumberLex::Integer),
        DOT if extended => LexStep::Take(NumberLex::FractionStart),
        _ => LexStep::Stop,
    }
}

/// Offers one byte to the number machine: `true` when the number takes it, `false` when the number ends before it. A
/// digit after a leading zero is malformed off lenient, and a count of digits past the counters' range is refused; both
/// leave the state as it was.
pub fn advance_number(state: &mut NumberState, byte: u8, lenient: bool, json5: bool) -> (taken: Result<
    bool,
    CodecFailureKind,
>)
    ensures
        match lex_step(old(state).lex, byte, old(state).digit_count > 0, lenient, json5) {
            LexStep::Take(next) => if old(state).reads_digit(next) && old(state).digits_full(next == NumberLex::Fraction) {
                taken == Err::<bool, CodecFailureKind>(CodecFailureKind::Overflow) && *final(state) == *old(state)
            } else {
                taken == Ok::<bool, CodecFailureKind>(true) && *final(state) == old(state).taken(byte, next)
            },
            LexStep::Stop => taken == Ok::<bool, CodecFailureKind>(false) && *final(state) == old(state).stopped(),
            LexStep::Refuse => taken == Err::<bool, CodecFailureKind>(CodecFailureKind::InvalidInput) && *final(state)
                == *old(state),
        },
{
    let from = state.lex;
    let next = match next_lex(from, byte, state.digit_count > 0, lenient, json5) {
        LexStep::Take(next) => next,
        LexStep::Stop => {
            if from == NumberLex::Start {
                state.lex = NumberLex::IntegerStart;
            }
            return Ok(false);
        }
        LexStep::Refuse => return Err(CodecFailureKind::InvalidInput),
    };
    let digit = match next {
        NumberLex::Zero | NumberLex::Integer | NumberLex::Fraction => true,
        // The `x` that opens a hex integer is no digit of it.
        NumberLex::Hex => from == NumberLex::Hex,
        _ => false,
    };
    if digit {
        match push_digit(state, byte, next == NumberLex::Fraction) {
            Ok(_) => {}
            Err(kind) => return Err(kind),
        }
    } else if next == NumberLex::Exponent {
        push_exponent(state, byte);
    }
    match from {
        NumberLex::Start | NumberLex::IntegerStart => {
            if from == NumberLex::Start && byte == MINUS {
                state.negative = true;
            }
            // A leading `+` or a leading point: the spelling is not canonical.
            if byte == PLUS || byte == DOT {
                state.lenient_spelling = true;
            }
        }
        NumberLex::Zero => {
            if next == NumberLex::Integer {
                state.lenient_spelling = true;
            }
            if next == NumberLex::ExponentStart {
                state.has_fraction_or_exponent = true;
            }
        }
        NumberLex::Integer => {
            if next == NumberLex::ExponentStart {
                state.has_fraction_or_exponent = true;
            }
        }
        NumberLex::FractionStart => {
            if next == NumberLex::ExponentStart {
                state.lenient_spelling = true;
            }
        }
        NumberLex::ExponentStart => {
            if byte == MINUS {
                state.exponent_negative = true;
            }
        }
        _ => {}
    }
    if next == NumberLex::FractionStart {
        state.has_fraction_or_exponent = true;
    }
    state.lex = next;
    Ok(true)
}

/// End of the run of decimal digits that starts at `from`.
pub open spec fn digit_run_end(bytes: Seq<u8>, from: int) -> int
    decreases bytes.len() - from,
{
    if 0 <= from < bytes.len() && is_digit(bytes[from]) {
        digit_run_end(bytes, from + 1)
    } else {
        from
    }
}

/// Index of the first digit of `digits` that is not zero.
spec fn first_nonzero_in(digits: Seq<u8>) -> Option<int>
    decreases digits.len(),
{
    if digits.len() == 0 {
        None
    } else if first_nonzero_in(digits.drop_last()) is Some {
        first_nonzero_in(digits.drop_last())
    } else if digits.last() != ZERO {
        Some(digits.len() - 1)
    } else {
        None
    }
}

/// Index of the last digit of `digits` that is not zero.
spec fn last_nonzero_in(digits: Seq<u8>) -> Option<int>
    decreases digits.len(),
{
    if digits.len() == 0 {
        None
    } else if digits.last() != ZERO {
        Some(digits.len() - 1)
    } else {
        last_nonzero_in(digits.drop_last())
    }
}

/// `base` moved by `by`, when there is a `by`; `kept` otherwise.
spec fn moved(base: u32, by: Option<int>, kept: Option<u32>) -> Option<u32> {
    match by {
        Some(by) => Some((base + by) as u32),
        None => kept,
    }
}

/// A digit run in one step: the counters move by its length, and the first and last nonzero digits are its own.
proof fn lemma_with_digits(state: NumberState, digits: Seq<u8>, fractional: bool)
    requires
        state.digit_count + digits.len() <= u32::MAX,
        state.cursor + digits.len() <= u32::MAX,
        fractional ==> state.fraction_digits + digits.len() <= u32::MAX,
    ensures
        ({
            let first = if state.first_nonzero is None {
                first_nonzero_in(digits)
            } else {
                None
            };
            let last = last_nonzero_in(digits);
            &&& first_nonzero_in(digits) is Some <==> last is Some
            &&& first_nonzero_in(digits) matches Some(at) ==> 0 <= at < digits.len()
            &&& last matches Some(at) ==> 0 <= at < digits.len()
            &&& state.with_digits(digits, fractional) == (NumberState {
                digit_count: (state.digit_count + digits.len()) as u32,
                cursor: (state.cursor + digits.len()) as u32,
                last_digit_offset: if digits.len() > 0 {
                    Some((state.cursor + digits.len() - 1) as u32)
                } else {
                    state.last_digit_offset
                },
                first_nonzero: moved(state.digit_count, first, state.first_nonzero),
                first_nonzero_offset: moved(state.cursor, first, state.first_nonzero_offset),
                last_nonzero: moved(state.digit_count, last, state.last_nonzero),
                last_nonzero_offset: moved(state.cursor, last, state.last_nonzero_offset),
                fraction_digits: if fractional {
                    (state.fraction_digits + digits.len()) as u32
                } else {
                    state.fraction_digits
                },
                ..state
            })
        }),
    decreases digits.len(),
{
    if digits.len() > 0 {
        lemma_with_digits(state, digits.drop_last(), fractional);
    }
}

/// Folds one run of `0-9` bytes into `state`'s digit accounting in bulk and advances the cursor past it. The outcome is
/// exactly that of counting the run digit by digit, so a run-skipped number is indistinguishable from a byte-at-a-time
/// one to every later consumer. The caller re-enters [`advance_number`] at the run's first non-digit byte (or the slice
/// end). Only the `Integer` and `Fraction` lexemes are eligible: a digit in `Zero` is the leading-zero error, whose
/// position must not move, and no other lexeme is mid-digit-run.
///
/// A run that outgrows a counter or the offset width is refused, and leaves the state as it was.
pub fn consume_digit_run(state: &mut NumberState, digits: &[u8], fractional: bool) -> (run: Result<
    usize,
    CodecFailureKind,
>)
    ensures
        ({
            let len = digit_run_end(digits@, 0);
            if old(state).digit_count + len <= u32::MAX && old(state).cursor + len <= u32::MAX && (fractional ==> old(
                state,
            ).fraction_digits + len <= u32::MAX) {
                run == Ok::<usize, CodecFailureKind>(len as usize) && 0 <= len <= digits.len() && *final(state) == old(
                    state,
                ).with_digits(digits@.take(len), fractional)
            } else {
                run == Err::<usize, CodecFailureKind>(CodecFailureKind::Overflow) && *final(state) == *old(state)
            }
        }),
{
    // One walk: digit-run length plus first/last non-zero.
    let mut run: usize = 0;
    let mut first_rel: Option<usize> = None;
    let mut last_rel: Option<usize> = None;
    while run < digits.len() && ZERO <= digits[run] && digits[run] <= NINE
        invariant
            run <= digits.len(),
            digit_run_end(digits@, 0) == digit_run_end(digits@, run as int),
            match first_rel {
                Some(at) => first_nonzero_in(digits@.take(run as int)) == Some(at as int) && at < run,
                None => first_nonzero_in(digits@.take(run as int)) is None,
            },
            match last_rel {
                Some(at) => last_nonzero_in(digits@.take(run as int)) == Some(at as int) && at < run,
                None => last_nonzero_in(digits@.take(run as int)) is None,
            },
            first_rel is Some <==> last_rel is Some,
        decreases digits.len() - run,
    {
        assert(digits@.take(run + 1).drop_last() =~= digits@.take(run as int));
        if digits[run] != ZERO {
            if first_rel.is_none() {
                first_rel = Some(run);
            }
            last_rel = Some(run);
        }
        run += 1;
    }
    if run == 0 {
        return Ok(0);
    }
    let ghost all = digits@.take(run as int);
    let run_u32 = match offset_u32(run) {
        Ok(run_u32) => run_u32,
        Err(kind) => return Err(kind),
    };
    let first_index = state.digit_count;
    let cursor = state.cursor;
    let (digit_count, end) = match (first_index.checked_add(run_u32), cursor.checked_add(run_u32)) {
        (Some(digit_count), Some(end)) => (digit_count, end),
        _ => return Err(CodecFailureKind::Overflow),
    };
    if fractional {
        match state.fraction_digits.checked_add(run_u32) {
            Some(count) => state.fraction_digits = count,
            None => return Err(CodecFailureKind::Overflow),
        }
    }
    proof {
        lemma_with_digits(*old(state), all, fractional);
    }
    state.digit_count = digit_count;
    state.last_digit_offset = Some(end - 1);
    if let (Some(first), Some(last)) = (first_rel, last_rel) {
        if state.first_nonzero.is_none() {
            state.first_nonzero = Some(first_index + first as u32);
            state.first_nonzero_offset = Some(cursor + first as u32);
        }
        state.last_nonzero = Some(first_index + last as u32);
        state.last_nonzero_offset = Some(cursor + last as u32);
    }
    state.cursor = end;
    Ok(run)
}

/// Whether a number may end where the machine stands.
pub open spec fn complete(lex: NumberLex, lenient: bool, json5: bool, digit_count: int) -> bool {
    match lex {
        NumberLex::Zero | NumberLex::Integer | NumberLex::Fraction | NumberLex::Exponent => true,
        NumberLex::FractionStart => (lenient || json5) && digit_count > 0,
        NumberLex::Hex => digit_count > 1,
        NumberLex::Start | NumberLex::IntegerStart | NumberLex::ExponentStart | NumberLex::ExponentSign => false,
    }
}

/// Whether a number may end where the machine stands. Lenient and JSON5 take `1.` (a bare point with digits before it);
/// `.` and `-.` alone carry no digits and stay incomplete. A hex integer needs a digit after the `0x`, whose leading `0`
/// is digit one.
pub fn number_lex_complete(lex: NumberLex, lenient: bool, json5: bool, digit_count: usize) -> (done: bool)
    ensures
        done == complete(lex, lenient, json5, digit_count as int),
{
    match lex {
        NumberLex::Zero | NumberLex::Integer | NumberLex::Fraction | NumberLex::Exponent => true,
        NumberLex::FractionStart => (lenient || json5) && digit_count > 0,
        NumberLex::Hex => digit_count > 1,
        NumberLex::Start | NumberLex::IntegerStart | NumberLex::ExponentStart | NumberLex::ExponentSign => false,
    }
}

/// Whether `scale` is in the supported range of exact decimal scales.
pub open spec fn scale_fits(scale: int) -> bool {
    i64::MIN <= scale <= i64::MAX
}

impl NumberState {
    /// The explicit exponent.
    pub open spec fn exponent_value(self) -> int {
        if self.exponent_negative {
            -self.exponent
        } else {
            self.exponent as int
        }
    }

    /// The decimal scale of the digits as authored: the fraction's length less the explicit exponent.
    pub open spec fn render_scale(self) -> int {
        self.fraction_digits - self.exponent_value()
    }

    /// The zeroes after the last nonzero digit.
    pub open spec fn trailing_zeroes(self) -> int {
        self.digit_count - 1 - self.last_nonzero->0
    }

    /// The last nonzero digit is one of the digits read.
    pub open spec fn counts_agree(self) -> bool {
        self.last_nonzero matches Some(last) ==> last < self.digit_count
    }
}

/// The offset just past `offset`, when there is one.
pub open spec fn past(offset: Option<u32>) -> Option<usize> {
    match offset {
        Some(at) => if at < u32::MAX {
            Some((at + 1) as usize)
        } else {
            None
        },
        None => None,
    }
}

/// The canonical copy range and scale of a completed number.
pub open spec fn finish_plan(state: NumberState, lenient: bool) -> Result<
    Option<(usize, usize, Option<i64>)>,
    CodecFailureKind,
> {
    let contract = Err(CodecFailureKind::InternalContractViolation);
    if state.first_nonzero is Some {
        let scale = state.render_scale() - state.trailing_zeroes();
        if state.last_nonzero is None {
            contract
        } else if state.has_fraction_or_exponent {
            if state.exponent_overflow || !scale_fits(scale) {
                Ok(None)
            } else {
                match (state.first_nonzero_offset, past(state.last_nonzero_offset)) {
                    (Some(first), Some(end)) => Ok(Some((first as usize, end, Some(scale as i64)))),
                    _ => contract,
                }
            }
        } else if lenient && state.lenient_spelling {
            match state.first_nonzero_offset {
                Some(first) => Ok(Some((first as usize, state.cursor as usize, None))),
                None => contract,
            }
        } else {
            let start = state.start + if state.negative {
                1int
            } else {
                0
            };
            if start <= usize::MAX {
                Ok(Some((start as usize, state.cursor as usize, None)))
            } else {
                Err(CodecFailureKind::Overflow)
            }
        }
    } else if !state.has_fraction_or_exponent {
        Ok(Some((0, 0, None)))
    } else if state.exponent_overflow || !scale_fits(state.render_scale()) {
        Ok(None)
    } else {
        Ok(Some((0, 0, Some(state.render_scale() as i64))))
    }
}

/// The render copy range and scale of a completed decimal.
pub open spec fn render_plan(state: NumberState) -> Result<Option<(usize, usize, i64)>, CodecFailureKind> {
    let scale = state.render_scale();
    if state.exponent_overflow || !scale_fits(scale) {
        Ok(None)
    } else if state.first_nonzero is None {
        Ok(Some((0, 0, scale as i64)))
    } else {
        match (state.first_nonzero_offset, past(state.last_digit_offset)) {
            (Some(first), Some(end)) => Ok(Some((first as usize, end, scale as i64))),
            _ => Err(CodecFailureKind::InternalContractViolation),
        }
    }
}

/// The fraction's length less the explicit exponent less `trailing`, when it is in range.
fn scale_of(state: &NumberState, trailing: u32) -> (scale: Option<i64>)
    ensures
        scale == if state.exponent_overflow || !scale_fits(state.render_scale() - trailing) {
            None::<i64>
        } else {
            Some((state.render_scale() - trailing) as i64)
        },
{
    if state.exponent_overflow || state.exponent > i128::MAX as u128 {
        return None;
    }
    let magnitude = state.exponent as i128;
    let exponent = if state.exponent_negative {
        -magnitude
    } else {
        magnitude
    };
    let fraction = state.fraction_digits as i128;
    let scale = match fraction.checked_sub(exponent) {
        Some(scale) => match scale.checked_sub(trailing as i128) {
            Some(scale) => scale,
            None => return None,
        },
        None => return None,
    };
    if i64::MIN as i128 <= scale && scale <= i64::MAX as i128 {
        Some(scale as i64)
    } else {
        None
    }
}

/// The offset just past `offset`.
fn offset_past(offset: Option<u32>) -> (end: Option<usize>)
    ensures
        end == past(offset),
{
    match offset {
        Some(at) => match at.checked_add(1) {
            Some(end) => Some(end as usize),
            None => None,
        },
        None => None,
    }
}

/// Computes the canonical copy range and decimal scale for a completed number, or `Ok(None)` when the exponent places
/// the value outside the supported exact decimal range. This is the single authority on which numbers are accepted.
/// Under `lenient`, a leading-zero integer's plan skips the leading zero (the canonical text is the strict integer's).
///
/// A zero mantissa obeys the same range law as a nonzero one: an exact zero is representable at any scale, so answering
/// an in-range scale for every spelling would render plain `0` for spellings whose render is a scientific form.
pub fn number_finish_plan(state: &NumberState, lenient: bool) -> (plan: Result<
    Option<(usize, usize, Option<i64>)>,
    CodecFailureKind,
>)
    requires
        state.counts_agree(),
    ensures
        plan == finish_plan(*state, lenient),
{
    if state.first_nonzero.is_some() {
        let last = match state.last_nonzero {
            Some(last) => last,
            None => return Err(CodecFailureKind::InternalContractViolation),
        };
        if state.has_fraction_or_exponent {
            let scale = match scale_of(state, state.digit_count - 1 - last) {
                Some(scale) => scale,
                None => return Ok(None),
            };
            match (state.first_nonzero_offset, offset_past(state.last_nonzero_offset)) {
                (Some(first), Some(end)) => Ok(Some((first as usize, end, Some(scale)))),
                _ => Err(CodecFailureKind::InternalContractViolation),
            }
        } else if lenient && state.lenient_spelling {
            // A leading-zero integer (`01`, `007`) is not its own render: the coefficient starts at the first nonzero
            // digit.
            match state.first_nonzero_offset {
                Some(first) => Ok(Some((first as usize, state.cursor_usize(), None))),
                None => Err(CodecFailureKind::InternalContractViolation),
            }
        } else {
            let sign: usize = if state.negative {
                1
            } else {
                0
            };
            match state.start_usize().checked_add(sign) {
                Some(start) => Ok(Some((start, state.cursor_usize(), None))),
                None => Err(CodecFailureKind::Overflow),
            }
        }
    } else if !state.has_fraction_or_exponent {
        // A plain zero integer (`0`, `-0`): no scale, the prefix is the whole span.
        Ok(Some((0, 0, None)))
    } else {
        match scale_of(state, 0) {
            Some(scale) => Ok(Some((0, 0, Some(scale)))),
            None => Ok(None),
        }
    }
}

/// Computes the *render* copy range and scale for a completed decimal number: the coefficient keeps its source literal's
/// trailing zeroes, and the scale is the decimal exponent (the fraction's length less the explicit exponent, with no
/// trailing-zero adjustment).
///
/// Returns `Ok(None)` when the render scale leaves the supported range; the caller then falls back to
/// [`number_finish_plan`]'s canonical range, which drops the trailing zeroes but still round-trips the value. An all-zero
/// magnitude names the empty range: its coefficient is the sign-carrying zero, and only the scale tells `0.0` from
/// `0e5`.
pub fn number_render_plan(state: &NumberState) -> (plan: Result<Option<(usize, usize, i64)>, CodecFailureKind>)
    ensures
        plan == render_plan(*state),
{
    let scale = match scale_of(state, 0) {
        Some(scale) => scale,
        None => return Ok(None),
    };
    if state.first_nonzero.is_some() {
        match (state.first_nonzero_offset, offset_past(state.last_digit_offset)) {
            (Some(first), Some(end)) => Ok(Some((first as usize, end, scale))),
            _ => Err(CodecFailureKind::InternalContractViolation),
        }
    } else {
        Ok(Some((0, 0, scale)))
    }
}

/// Whether a completed number's canonical text is byte-identical to its own source span: an integer in a strict
/// spelling.
pub open spec fn verbatim_source(state: NumberState) -> bool {
    !state.has_fraction_or_exponent && !state.lenient_spelling
}

/// Reports whether a completed number's canonical text is byte-identical to its own source span, so the document can
/// NAME those bytes instead of building a copy of them. Exactly one family of spellings is: an integer, with neither a
/// fraction nor an exponent, in a spelling strict JSON has. A fraction's copy drops the point, an exponent folds into
/// the scale, and a lenient spelling drops a leading zero or a sign.
pub fn number_is_verbatim_source(state: &NumberState) -> (verbatim: bool)
    ensures
        verbatim == verbatim_source(*state),
{
    !state.has_fraction_or_exponent && !state.lenient_spelling
}

/// Whether one completed number's authored spelling survives the round trip a DEFERRED subtree's materialization makes.
/// The sign of a zero magnitude is the one fact that is dropped, so negative zero declines in every spelling; a verbatim
/// integer survives digit for digit; a decimal survives when it has a render plan, and declines when it has none.
pub fn number_survives_owned_round_trip(state: &NumberState) -> (survives: bool)
    ensures
        survives == (!(state.negative && state.first_nonzero is None) && (verbatim_source(*state) || (render_plan(
            *state,
        ) matches Ok(Some(_))))),
{
    if state.negative && state.first_nonzero.is_none() {
        return false;
    }
    if number_is_verbatim_source(state) {
        return true;
    }
    match number_render_plan(state) {
        Ok(Some(_)) => true,
        _ => false,
    }
}

/// The bytes of `bytes` that are not a point.
pub open spec fn without_points(bytes: Seq<u8>) -> Seq<u8>
    decreases bytes.len(),
{
    if bytes.len() == 0 {
        seq![]
    } else if bytes.last() == DOT {
        without_points(bytes.drop_last())
    } else {
        without_points(bytes.drop_last()).push(bytes.last())
    }
}

/// The longest coefficient, sign included, that is compared against its spelling.
pub const MAX_COMPARED_COEFFICIENT: usize = 64;

/// The coefficient a decimal renders from: its digits with the point dropped, or a zero where it has none, behind its
/// sign.
pub open spec fn coefficient_text(source: Seq<u8>, negative: bool, start: int, end: int) -> Seq<u8> {
    let sign: Seq<u8> = if negative {
        seq![MINUS]
    } else {
        seq![]
    };
    let digits = without_points(source.subrange(start, end));
    sign + if digits.len() == 0 {
        seq![ZERO]
    } else {
        digits
    }
}

/// The coefficient and scale a completed decimal renders from, when it has a render plan and its coefficient is short
/// enough to compare. The coefficient is ASSEMBLED, never sliced: the plan's digit range runs from the first nonzero
/// digit to the last digit, which straddles the point whenever the integer part is nonzero (`1.5` names the range
/// `1.5`), and an all-zero magnitude names the EMPTY range whose coefficient is the sign-carrying zero.
pub fn decimal_render_parts(source: &[u8], state: &NumberState) -> (parts: Option<(Vec<u8>, i64)>)
    requires
        render_plan(*state) matches Ok(Some((start, end, _))) ==> start <= end <= source.len(),
    ensures
        match render_plan(*state) {
            Ok(Some((start, end, scale))) => {
                let text = coefficient_text(source@, state.negative, start as int, end as int);
                match parts {
                    Some((coefficient, render_scale)) => coefficient@ == text && text.len() <= MAX_COMPARED_COEFFICIENT
                        && render_scale == scale,
                    None => text.len() > MAX_COMPARED_COEFFICIENT,
                }
            },
            _ => parts is None,
        },
{
    let (start, end, scale) = match number_render_plan(state) {
        Ok(Some(plan)) => plan,
        _ => return None,
    };
    let mut coefficient: Vec<u8> = Vec::new();
    if state.negative {
        coefficient.push(MINUS);
    }
    let ghost sign: Seq<u8> = if state.negative {
        seq![MINUS]
    } else {
        seq![]
    };
    let ghost range = source@.subrange(start as int, end as int);
    assert(coefficient@ =~= sign);
    let mut at: usize = start;
    assert(range.take(0) =~= seq![]);
    assert(coefficient@ =~= sign + without_points(range.take(0)));
    while at < end
        invariant
            start <= at <= end <= source.len(),
            range == source@.subrange(start as int, end as int),
            sign == (if state.negative { seq![MINUS] } else { seq![] }),
            coefficient@ == sign + without_points(range.take(at - start)),
            coefficient.len() <= MAX_COMPARED_COEFFICIENT,
            render_plan(*state) == Ok::<Option<(usize, usize, i64)>, CodecFailureKind>(Some((start, end, scale))),
        decreases end - at,
    {
        let byte = source[at];
        proof {
            assert(range.take(at + 1 - start).drop_last() =~= range.take(at - start));
            assert(range.take(at + 1 - start).last() == byte);
            lemma_without_points_grows(range, at + 1 - start);
            assert(range.take(range.len() as int) =~= range);
        }
        if byte != DOT {
            if coefficient.len() >= MAX_COMPARED_COEFFICIENT {
                return None;
            }
            coefficient.push(byte);
        }
        at += 1;
    }
    assert(range.take(end - start) =~= range);
    let signed: usize = if state.negative {
        1
    } else {
        0
    };
    if coefficient.len() == signed {
        // The all-zero magnitude's render plan names the empty range; its coefficient is the sign-carrying zero itself.
        coefficient.push(ZERO);
    }
    assert(coefficient@ =~= coefficient_text(source@, state.negative, start as int, end as int));
    Some((coefficient, scale))
}

/// More bytes never leave fewer.
proof fn lemma_without_points_grows(bytes: Seq<u8>, upto: int)
    requires
        0 <= upto <= bytes.len(),
    ensures
        without_points(bytes.take(upto)).len() <= without_points(bytes).len(),
    decreases bytes.len(),
{
    if upto == bytes.len() {
        assert(bytes.take(upto) =~= bytes);
    } else {
        assert(bytes.drop_last().take(upto) =~= bytes.take(upto));
        lemma_without_points_grows(bytes.drop_last(), upto);
    }
}

/// The concatenation of `pieces`.
pub open spec fn joined(pieces: Seq<Vec<u8>>) -> Seq<u8>
    decreases pieces.len(),
{
    if pieces.len() == 0 {
        seq![]
    } else {
        joined(pieces.drop_last()) + pieces.last()@
    }
}

proof fn lemma_joined_prefix(pieces: Seq<Vec<u8>>, upto: int)
    requires
        0 <= upto <= pieces.len(),
    ensures
        joined(pieces.take(upto)).is_prefix_of(joined(pieces)),
    decreases pieces.len(),
{
    if upto == pieces.len() {
        assert(pieces.take(upto) =~= pieces);
    } else {
        assert(pieces.drop_last().take(upto) =~= pieces.take(upto));
        lemma_joined_prefix(pieces.drop_last(), upto);
    }
}

/// Whether one completed DECIMAL number's authored spelling is the codec's own render, given the pieces that render
/// [`decimal_render_parts`]' coefficient and scale. The pieces are compared against the authored bytes exactly; a number
/// with no parts to render is not its own render.
pub fn decimal_source_is_canonical(source: &[u8], state: &NumberState, rendered: Option<&Vec<Vec<u8>>>) -> (canonical:
    bool)
    requires
        state.start <= state.cursor <= source.len(),
    ensures
        canonical == (rendered matches Some(pieces) && joined(pieces@) == source@.subrange(
            state.start as int,
            state.cursor as int,
        )),
{
    let pieces = match rendered {
        Some(pieces) => pieces,
        None => return false,
    };
    let ghost authored = source@.subrange(state.start as int, state.cursor as int);
    let start = state.start_usize();
    let end = state.cursor_usize();
    let mut offset: usize = start;
    let mut piece: usize = 0;
    assert(pieces@.take(0) =~= seq![]);
    assert(authored.take(0) =~= seq![]);
    while piece < pieces.len()
        invariant
            start == state.start,
            end == state.cursor,
            start <= offset <= end <= source.len(),
            authored == source@.subrange(start as int, end as int),
            piece <= pieces.len(),
            joined(pieces@.take(piece as int)) == authored.take(offset - start),
            rendered == Some(pieces),
        decreases pieces.len() - piece,
    {
        let text = &pieces[piece];
        let ghost before = joined(pieces@.take(piece as int));
        proof {
            assert(pieces@.take(piece + 1).drop_last() =~= pieces@.take(piece as int));
            lemma_joined_prefix(pieces@, piece + 1);
        }
        let ghost through = joined(pieces@.take(piece + 1));
        assert(through == before + text@);
        if end - offset < text.len() {
            assert(before.len() == offset - start);
            assert(through.len() > authored.len());
            assert(joined(pieces@).len() >= through.len());
            return false;
        }
        let mut k: usize = 0;
        while k < text.len()
            invariant
                start <= offset <= end <= source.len(),
                end - offset >= text.len(),
                k <= text.len(),
                authored == source@.subrange(start as int, end as int),
                forall|i: int| 0 <= i < k ==> text@[i] == #[trigger] authored[offset - start + i],
                through == before + text@,
                through.is_prefix_of(joined(pieces@)),
                before.len() == offset - start,
                start == state.start,
                end == state.cursor,
                rendered == Some(pieces),
            decreases text.len() - k,
        {
            if source[offset + k] != text[k] {
                assert(through[offset - start + k] != authored[offset - start + k]);
                return false;
            }
            k += 1;
        }
        offset += text.len();
        piece += 1;
        assert(authored.take(offset - start) =~= through) by {
            assert forall|i: int| 0 <= i < through.len() implies authored[i] == through[i] by {
                if i < before.len() {
                    assert(before[i] == authored.take(before.len() as int)[i]);
                } else {
                    assert(text@[i - before.len()] == authored[before.len() + (i - before.len())]);
                }
            }
        }
    }
    assert(pieces@.take(pieces@.len() as int) =~= pieces@);
    assert(offset == end ==> authored.take(offset - start) =~= authored);
    offset == end
}

} // verus!
