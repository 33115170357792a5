//! Which numbers a dialect has, by the parts they are written in.

use vstd::prelude::*;

use crate::error::CodecFailureKind;
use crate::number::{complete, finish_plan, lex_step, LexStep, NumberLex, NumberState};
use crate::number_laws::{dialect_lex, moved_on};

verus! {

/// Whether a byte is a decimal digit.
pub open spec fn figure(byte: u8) -> bool {
    0x30 <= byte <= 0x39
}

/// Whether every byte is a decimal digit.
pub open spec fn figures(bytes: Seq<u8>) -> bool {
    forall|i: int| 0 <= i < bytes.len() ==> figure(#[trigger] bytes[i])
}

/// Whether every byte is a hexadecimal digit.
pub open spec fn nibbles(bytes: Seq<u8>) -> bool {
    forall|i: int| 0 <= i < bytes.len() ==> crate::escape_laws::is_nibble(#[trigger] bytes[i])
}

/// A byte that may be there.
pub open spec fn perhaps(byte: Option<u8>) -> Seq<u8> {
    match byte {
        Some(byte) => seq![byte],
        None => seq![],
    }
}

/// The parts that a number is written in, or that the start of one is.
pub struct Written {
    /// The sign.
    pub sign: Option<u8>,
    /// The digits in front of the point.
    pub whole: Seq<u8>,
    /// Whether there is a point.
    pub point: bool,
    /// The digits behind the point.
    pub fraction: Seq<u8>,
    /// The exponent's marker.
    pub marker: Option<u8>,
    /// The exponent's sign.
    pub exponent_sign: Option<u8>,
    /// The exponent's digits.
    pub exponent: Seq<u8>,
    /// The `x` of a hexadecimal number.
    pub cross: Option<u8>,
    /// The digits behind it.
    pub hex: Seq<u8>,
}

impl Written {
    /// The text that the parts make.
    #[verifier::opaque]
    pub open spec fn text(self) -> Seq<u8> {
        perhaps(self.sign) + self.whole + (if self.point {
            seq![0x2eu8]
        } else {
            seq![]
        }) + self.fraction + perhaps(self.marker) + perhaps(self.exponent_sign) + self.exponent + perhaps(self.cross)
            + self.hex
    }

    /// How many digits the number has, but for its exponent's.
    pub open spec fn digits(self) -> int {
        (self.whole.len() + self.fraction.len() + self.hex.len()) as int
    }

    /// Whether a dialect has the parts. Every number may start with a minus sign, and end in a fraction and an exponent. A
    /// plus sign, and a point with no digit before or behind it, are for the lenient dialect and for JSON5; a zero in
    /// front of another digit is for the lenient one alone, and a hexadecimal number, a zero and an `x` of either case in
    /// front of its digits, for JSON5 alone.
    pub open spec fn fits(self, lenient: bool, json5: bool) -> bool {
        let extended = lenient || json5;
        &&& self.sign matches Some(sign) ==> sign == 0x2d || (sign == 0x2b && extended)
        &&& figures(self.whole) && figures(self.fraction) && figures(self.exponent) && nibbles(self.hex)
        &&& self.whole.len() > 1 && self.whole[0] == 0x30 ==> lenient
        &&& self.point && self.whole.len() == 0 ==> extended
        &&& !self.point ==> self.fraction.len() == 0
        &&& self.marker matches Some(marker) ==> {
            &&& marker == 0x65 || marker == 0x45
            &&& self.whole.len() + self.fraction.len() > 0
            &&& self.point && self.fraction.len() == 0 ==> extended
        }
        &&& self.exponent_sign matches Some(sign) ==> sign == 0x2b || sign == 0x2d
        &&& self.marker is None ==> self.exponent_sign is None && self.exponent.len() == 0
        &&& self.cross matches Some(cross) ==> {
            &&& json5 && (cross == 0x78 || cross == 0x58)
            &&& self.whole == seq![0x30u8] && !self.point && self.marker is None
        }
        &&& self.cross is None ==> self.hex.len() == 0
    }

    /// Whether the parts are those of a whole number.
    pub open spec fn finished(self, lenient: bool, json5: bool) -> bool {
        if self.cross is Some {
            self.hex.len() > 0
        } else if self.marker is Some {
            self.exponent.len() > 0
        } else {
            &&& self.whole.len() + self.fraction.len() > 0
            &&& self.point && self.fraction.len() == 0 ==> lenient || json5
        }
    }

    /// Where the machine stands behind the parts.
    pub open spec fn stage(self) -> NumberLex {
        if self.cross is Some {
            NumberLex::Hex
        } else if self.exponent.len() > 0 {
            NumberLex::Exponent
        } else if self.exponent_sign is Some {
            NumberLex::ExponentSign
        } else if self.marker is Some {
            NumberLex::ExponentStart
        } else if self.fraction.len() > 0 {
            NumberLex::Fraction
        } else if self.point {
            NumberLex::FractionStart
        } else if self.whole.len() == 1 && self.whole[0] == 0x30 {
            NumberLex::Zero
        } else if self.whole.len() > 0 {
            NumberLex::Integer
        } else if self.sign is Some {
            NumberLex::IntegerStart
        } else {
            NumberLex::Start
        }
    }

    /// The parts with one more byte, which leads to `next`.
    spec fn with(self, byte: u8, next: NumberLex) -> Written {
        match next {
            NumberLex::Start => self,
            NumberLex::IntegerStart => Written { sign: Some(byte), ..self },
            NumberLex::Zero | NumberLex::Integer => Written { whole: self.whole.push(byte), ..self },
            NumberLex::FractionStart => Written { point: true, ..self },
            NumberLex::Fraction => Written { fraction: self.fraction.push(byte), ..self },
            NumberLex::ExponentStart => Written { marker: Some(byte), ..self },
            NumberLex::ExponentSign => Written { exponent_sign: Some(byte), ..self },
            NumberLex::Exponent => Written { exponent: self.exponent.push(byte), ..self },
            NumberLex::Hex => if self.cross is None {
                Written { cross: Some(byte), ..self }
            } else {
                Written { hex: self.hex.push(byte), ..self }
            },
        }
    }

    /// The parts without their last byte.
    spec fn before(self) -> Written {
        match self.stage() {
            NumberLex::Start => self,
            NumberLex::IntegerStart => Written { sign: None, ..self },
            NumberLex::Zero | NumberLex::Integer => Written { whole: self.whole.drop_last(), ..self },
            NumberLex::FractionStart => Written { point: false, ..self },
            NumberLex::Fraction => Written { fraction: self.fraction.drop_last(), ..self },
            NumberLex::ExponentStart => Written { marker: None, ..self },
            NumberLex::ExponentSign => Written { exponent_sign: None, ..self },
            NumberLex::Exponent => Written { exponent: self.exponent.drop_last(), ..self },
            NumberLex::Hex => if self.hex.len() == 0 {
                Written { cross: None, ..self }
            } else {
                Written { hex: self.hex.drop_last(), ..self }
            },
        }
    }

    /// The last byte of the parts.
    spec fn last(self) -> u8 {
        match self.stage() {
            NumberLex::Start => 0,
            NumberLex::IntegerStart => self.sign->0,
            NumberLex::Zero | NumberLex::Integer => self.whole.last(),
            NumberLex::FractionStart => 0x2e,
            NumberLex::Fraction => self.fraction.last(),
            NumberLex::ExponentStart => self.marker->0,
            NumberLex::ExponentSign => self.exponent_sign->0,
            NumberLex::Exponent => self.exponent.last(),
            NumberLex::Hex => if self.hex.len() == 0 {
                self.cross->0
            } else {
                self.hex.last()
            },
        }
    }
}

proof fn lemma_push_figures(digits: Seq<u8>, byte: u8)
    ensures
        figures(digits) && figure(byte) ==> figures(digits.push(byte)),
        nibbles(digits) && crate::escape_laws::is_nibble(byte) ==> nibbles(digits.push(byte)),
        digits.len() > 0 && figures(digits) ==> figures(digits.drop_last()) && figure(digits.last()),
        digits.len() > 0 && nibbles(digits) ==> nibbles(digits.drop_last()) && crate::escape_laws::is_nibble(digits.last()),
{
}

proof fn lemma_byte_is_written(written: Written, byte: u8, lenient: bool, json5: bool, next: NumberLex)
    requires
        written.fits(lenient, json5),
        lex_step(written.stage(), byte, written.whole.len() + written.fraction.len() > 0, lenient, json5)
            == LexStep::Take(next),
    ensures
        written.with(byte, next).fits(lenient, json5),
        written.with(byte, next).stage() == next,
{
    lemma_push_figures(written.whole, byte);
    lemma_push_figures(written.fraction, byte);
    lemma_push_figures(written.exponent, byte);
    lemma_push_figures(written.hex, byte);
    if next == NumberLex::Hex && written.cross is None {
        assert(written.whole =~= seq![0x30u8]);
    }
    if next == NumberLex::Integer && written.stage() == NumberLex::Zero {
        assert(written.whole.push(byte)[0] == 0x30);
    }
}

#[verifier::spinoff_prover]
#[verifier::rlimit(60)]
proof fn lemma_written_text_grows(written: Written, byte: u8, lenient: bool, json5: bool, next: NumberLex)
    requires
        written.fits(lenient, json5),
        lex_step(written.stage(), byte, written.whole.len() + written.fraction.len() > 0, lenient, json5)
            == LexStep::Take(next),
    ensures
        written.with(byte, next).text() == written.text().push(byte),
{
    reveal(Written::text);
    assert(written.with(byte, next).text() =~= written.text().push(byte));
}

proof fn lemma_byte_was_taken(written: Written, lenient: bool, json5: bool)
    requires
        written.fits(lenient, json5),
        written.stage() != NumberLex::Start,
    ensures
        ({
            let before = written.before();
            &&& before.fits(lenient, json5)
            &&& lex_step(before.stage(), written.last(), before.whole.len() + before.fraction.len() > 0, lenient, json5)
                == LexStep::Take(written.stage())
        }),
{
    lemma_push_figures(written.whole, 0);
    lemma_push_figures(written.fraction, 0);
    lemma_push_figures(written.exponent, 0);
    lemma_push_figures(written.hex, 0);
    let before = written.before();
    if written.stage() == NumberLex::Integer || written.stage() == NumberLex::Zero {
        if written.whole.len() > 1 {
            assert(before.whole[0] == written.whole[0]);
            assert(figure(written.whole[0]));
        }
    }
    if written.stage() == NumberLex::Hex {
        assert(written.whole[0] == 0x30);
    }
}

#[verifier::spinoff_prover]
#[verifier::rlimit(60)]
proof fn lemma_written_text_shrinks(written: Written, lenient: bool, json5: bool)
    requires
        written.fits(lenient, json5),
        written.stage() != NumberLex::Start,
    ensures
        written.text() == written.before().text().push(written.last()),
{
    reveal(Written::text);
    assert(written.text() =~= written.before().text().push(written.last()));
}

proof fn lemma_digits_are_seen(written: Written, lenient: bool, json5: bool)
    requires
        written.fits(lenient, json5),
        written.stage() == NumberLex::FractionStart,
    ensures
        (exists|i: int| 0 <= i < written.text().len() && crate::number::is_digit(#[trigger] written.text()[i])) <==> (
        written.whole.len() + written.fraction.len() > 0),
{
    reveal(Written::text);
    let text = written.text();
    let lead = perhaps(written.sign).len() as int;
    assert(text =~= perhaps(written.sign) + written.whole + seq![0x2eu8]);
    if written.whole.len() > 0 {
        assert(figure(written.whole[0]));
        assert(crate::number::is_digit(text[lead]));
    } else {
        assert(text =~= perhaps(written.sign) + seq![0x2eu8]);
    }
}

/// A dialect's machine takes a text whole exactly when it is written in parts that the dialect has, and then stands behind
/// the last of them.
pub proof fn lemma_dialects_take_what_is_written(text: Seq<u8>, lenient: bool, json5: bool, lex: NumberLex)
    ensures
        dialect_lex(text, lenient, json5) == Some(lex) <==> exists|written: Written|
            written.fits(lenient, json5) && written.stage() == lex && #[trigger] written.text() == text,
    decreases text.len(),
{
    if dialect_lex(text, lenient, json5) == Some(lex) {
        lemma_taken_is_written(text, lenient, json5);
    }
    if exists|written: Written|
        written.fits(lenient, json5) && written.stage() == lex && #[trigger] written.text() == text {
        let written = choose|written: Written|
            written.fits(lenient, json5) && written.stage() == lex && #[trigger] written.text() == text;
        lemma_written_is_taken(written, lenient, json5);
    }
}

proof fn lemma_taken_is_written(text: Seq<u8>, lenient: bool, json5: bool) -> (written: Written)
    requires
        dialect_lex(text, lenient, json5) is Some,
    ensures
        written.fits(lenient, json5),
        written.text() == text,
        dialect_lex(text, lenient, json5) == Some(written.stage()),
    decreases text.len(),
{
    if text.len() == 0 {
        let none = Seq::<u8>::empty();
        let written = Written {
            sign: None,
            whole: none,
            point: false,
            fraction: none,
            marker: None,
            exponent_sign: None,
            exponent: none,
            cross: None,
            hex: none,
        };
        assert(written.text() =~= text) by {
            reveal(Written::text);
        }
        written
    } else {
        let head = text.drop_last();
        let before = lemma_taken_is_written(head, lenient, json5);
        let next = dialect_lex(text, lenient, json5)->0;
        if before.stage() == NumberLex::FractionStart {
            lemma_digits_are_seen(before, lenient, json5);
        }
        lemma_byte_is_written(before, text.last(), lenient, json5, next);
        lemma_written_text_grows(before, text.last(), lenient, json5, next);
        assert(head.push(text.last()) =~= text);
        before.with(text.last(), next)
    }
}

proof fn lemma_one_more_is_taken(
    head: Seq<u8>,
    byte: u8,
    lenient: bool,
    json5: bool,
    lex: NumberLex,
    digits: bool,
    next: NumberLex,
)
    requires
        dialect_lex(head, lenient, json5) == Some(lex),
        lex_step(lex, byte, digits, lenient, json5) == LexStep::Take(next),
        lex == NumberLex::FractionStart ==> digits == exists|i: int|
            0 <= i < head.len() && crate::number::is_digit(#[trigger] head[i]),
    ensures
        dialect_lex(head.push(byte), lenient, json5) == Some(next),
{
    assert(head.push(byte).drop_last() =~= head);
}

proof fn lemma_written_is_taken(written: Written, lenient: bool, json5: bool)
    requires
        written.fits(lenient, json5),
    ensures
        dialect_lex(written.text(), lenient, json5) == Some(written.stage()),
    decreases written.text().len(),
{
    if written.stage() == NumberLex::Start {
        assert(written.text() =~= seq![]) by {
            reveal(Written::text);
        }
    } else {
        let before = written.before();
        lemma_byte_was_taken(written, lenient, json5);
        lemma_written_text_shrinks(written, lenient, json5);
        lemma_written_is_taken(before, lenient, json5);
        if before.stage() == NumberLex::FractionStart {
            lemma_digits_are_seen(before, lenient, json5);
        }
        lemma_one_more_is_taken(
            before.text(),
            written.last(),
            lenient,
            json5,
            before.stage(),
            before.whole.len() + before.fraction.len() > 0,
            written.stage(),
        );
    }
}

/// A number may end where its parts are whole, and nowhere else.
pub proof fn lemma_numbers_end_where_they_are_whole(written: Written, lenient: bool, json5: bool)
    requires
        written.fits(lenient, json5),
    ensures
        complete(written.stage(), lenient, json5, written.digits()) <==> written.finished(lenient, json5),
{
}

impl Written {
    /// The number's digits, but for its exponent's.
    pub open spec fn coefficient(self) -> Seq<u8> {
        self.whole + self.fraction + self.hex
    }

    /// Where digit `index` stands in the text: the point, or the `x`, stands behind the digits of the whole part.
    pub open spec fn place(self, index: int) -> int {
        perhaps(self.sign).len() + index + if index >= self.whole.len() {
            1int
        } else {
            0
        }
    }

    /// Whether strict JSON does not have the spelling: a plus sign, a zero in front of another digit, nothing in front of the
    /// point, or an exponent right behind it.
    pub open spec fn lenient_spelling(self) -> bool {
        ||| self.sign == Some(0x2bu8)
        ||| self.whole.len() > 1 && self.whole[0] == 0x30
        ||| self.point && self.whole.len() == 0
        ||| self.marker is Some && self.point && self.fraction.len() == 0
    }
}

/// Whether a state knows the digits of a number that starts at `start`: how many there are, how many behind the point, where
/// the last of them stands, and which of them are the first and the last that are not zero, and where.
pub open spec fn knows_digits(state: NumberState, written: Written, start: int) -> bool {
    let digits = written.coefficient();
    &&& state.digit_count == digits.len()
    &&& state.fraction_digits == written.fraction.len()
    &&& match state.last_digit_offset {
        Some(at) => digits.len() > 0 && at == start + written.place(digits.len() - 1),
        None => digits.len() == 0,
    }
    &&& match (state.first_nonzero, state.first_nonzero_offset, state.last_nonzero, state.last_nonzero_offset) {
        (Some(first), Some(first_at), Some(last), Some(last_at)) => {
            &&& 0 <= first <= last < digits.len()
            &&& digits[first as int] != 0x30 && digits[last as int] != 0x30
            &&& forall|i: int| 0 <= i < first ==> #[trigger] digits[i] == 0x30
            &&& forall|i: int| last < i < digits.len() ==> #[trigger] digits[i] == 0x30
            &&& first_at == start + written.place(first as int)
            &&& last_at == start + written.place(last as int)
        },
        (None, None, None, None) => forall|i: int| 0 <= i < digits.len() ==> #[trigger] digits[i] == 0x30,
        _ => false,
    }
}

/// Whether a state knows everything else of the number that is no digit of its exponent.
pub open spec fn knows_parts(state: NumberState, written: Written, start: int) -> bool {
    &&& state.lex == written.stage()
    &&& state.start == start
    &&& state.cursor == start + written.text().len()
    &&& state.negative == (written.sign == Some(0x2du8))
    &&& state.exponent_negative == (written.exponent_sign == Some(0x2du8))
    &&& state.has_fraction_or_exponent == (written.point || written.marker is Some)
    &&& state.lenient_spelling == written.lenient_spelling()
}

/// The machine after every byte of `text` under a dialect, the cursor moved past each, if it takes them all.
pub open spec fn dialect_driven(state: NumberState, text: Seq<u8>, lenient: bool, json5: bool) -> Option<NumberState>
    decreases text.len(),
{
    if text.len() == 0 {
        Some(state)
    } else {
        match dialect_driven(state, text.drop_last(), lenient, json5) {
            Some(before) => match lex_step(before.lex, text.last(), before.digit_count > 0, lenient, json5) {
                LexStep::Take(next) => Some(moved_on(before.taken(text.last(), next))),
                _ => None,
            },
            None => None,
        }
    }
}

proof fn lemma_digit_becomes_known(
    state: NumberState,
    before: Written,
    written: Written,
    byte: u8,
    next: NumberLex,
    start: int,
)
    requires
        0 <= start,
        knows_digits(state, before, start),
        state.cursor < u32::MAX,
        before.coefficient().len() < state.cursor + 1,
        state.reads_digit(next),
        written.coefficient() == before.coefficient().push(byte),
        written.fraction.len() == before.fraction.len() + if next == NumberLex::Fraction {
            1int
        } else {
            0
        },
        forall|i: int| 0 <= i < before.coefficient().len() ==> #[trigger] written.place(i) == before.place(i),
        state.cursor == start + written.place(before.coefficient().len() as int),
    ensures
        knows_digits(moved_on(state.taken(byte, next)), written, start),
{
    let digits = written.coefficient();
    let early = before.coefficient();
    let count = early.len() as int;
    let after = moved_on(state.taken(byte, next));
    assert(forall|i: int| 0 <= i < count ==> digits[i] == early[i]);
    assert(digits[count] == byte);
    assert(after.digit_count == count + 1);
    if let Some(first) = state.first_nonzero {
        assert(written.place(first as int) == before.place(first as int));
        let last = state.last_nonzero->0;
        assert(written.place(last as int) == before.place(last as int));
    }
}

proof fn lemma_step_is_taken(state: NumberState, written: Written, lenient: bool, json5: bool)
    requires
        written.fits(lenient, json5),
        written.stage() != NumberLex::Start,
        state.lex == written.before().stage(),
        state.digit_count == written.before().coefficient().len(),
    ensures
        lex_step(state.lex, written.last(), state.digit_count > 0, lenient, json5) == LexStep::Take(written.stage()),
{
    lemma_byte_was_taken(written, lenient, json5);
    let before = written.before();
    if before.stage() == NumberLex::FractionStart {
        assert(before.hex.len() == 0);
    } else {
        assert(lex_step(before.stage(), written.last(), true, lenient, json5) == lex_step(
            before.stage(),
            written.last(),
            false,
            lenient,
            json5,
        ));
    }
}

#[verifier::spinoff_prover]
#[verifier::rlimit(60)]
proof fn lemma_step_knows_parts(
    state: NumberState,
    written: Written,
    lenient: bool,
    json5: bool,
    start: int,
    length: int,
)
    requires
        0 <= start,
        written.fits(lenient, json5),
        written.stage() != NumberLex::Start,
        state.lex == written.before().stage(),
        state.start == start && state.cursor == start + length - 1,
        state.negative == (written.before().sign == Some(0x2du8)),
        state.exponent_negative == (written.before().exponent_sign == Some(0x2du8)),
        state.has_fraction_or_exponent == (written.before().point || written.before().marker is Some),
        state.lenient_spelling == written.before().lenient_spelling(),
        1 <= length,
        start + length < u32::MAX,
    ensures
        ({
            let after = moved_on(state.taken(written.last(), written.stage()));
            &&& after.lex == written.stage()
            &&& after.start == start && after.cursor == start + length
            &&& after.negative == (written.sign == Some(0x2du8))
            &&& after.exponent_negative == (written.exponent_sign == Some(0x2du8))
            &&& after.has_fraction_or_exponent == (written.point || written.marker is Some)
            &&& after.lenient_spelling == written.lenient_spelling()
        }),
{
    let before = written.before();
    lemma_push_figures(written.whole, 0);
    lemma_push_figures(written.fraction, 0);
    if written.stage() == NumberLex::Integer || written.stage() == NumberLex::Zero {
        assert(before.whole.len() > 0 ==> before.whole[0] == written.whole[0]);
        assert(figure(written.whole[0]));
    }
}

#[verifier::spinoff_prover]
#[verifier::rlimit(60)]
proof fn lemma_step_knows_digits(
    state: NumberState,
    written: Written,
    lenient: bool,
    json5: bool,
    start: int,
    length: int,
)
    requires
        0 <= start,
        written.fits(lenient, json5),
        written.stage() != NumberLex::Start,
        state.lex == written.before().stage(),
        state.cursor == start + length,
        length == written.before().text().len(),
        knows_digits(state, written.before(), start),
        state.cursor < u32::MAX,
    ensures
        knows_digits(moved_on(state.taken(written.last(), written.stage())), written, start),
{
    let before = written.before();
    let byte = written.last();
    let next = written.stage();
    let after = moved_on(state.taken(byte, next));
    if next == NumberLex::Zero || next == NumberLex::Integer {
        assert(written.coefficient() =~= before.coefficient().push(byte));
        assert(before.text() =~= perhaps(before.sign) + before.whole) by {
            reveal(Written::text);
        }
        lemma_digit_becomes_known(state, before, written, byte, next, start);
    } else if next == NumberLex::Fraction {
        assert(written.coefficient() =~= before.coefficient().push(byte));
        assert(before.text() =~= perhaps(before.sign) + before.whole + seq![0x2eu8] + before.fraction) by {
            reveal(Written::text);
        }
        lemma_digit_becomes_known(state, before, written, byte, next, start);
    } else if next == NumberLex::Hex && written.hex.len() > 0 {
        assert(written.coefficient() =~= before.coefficient().push(byte));
        assert(before.text() =~= perhaps(before.sign) + before.whole + perhaps(before.cross) + before.hex) by {
            reveal(Written::text);
        }
        lemma_digit_becomes_known(state, before, written, byte, next, start);
    } else {
        assert(written.coefficient() =~= before.coefficient());
        lemma_no_digit_is_new(state, before, written, byte, next, start);
    }
}

proof fn lemma_no_digit_is_new(
    state: NumberState,
    before: Written,
    written: Written,
    byte: u8,
    next: NumberLex,
    start: int,
)
    requires
        knows_digits(state, before, start),
        !state.reads_digit(next),
        written.coefficient() == before.coefficient(),
        written.whole == before.whole && written.fraction == before.fraction,
        written.sign == before.sign || before.coefficient().len() == 0,
    ensures
        knows_digits(moved_on(state.taken(byte, next)), written, start),
{
    let after = moved_on(state.taken(byte, next));
    assert(after.digit_count == state.digit_count);
    assert(after.first_nonzero == state.first_nonzero && after.last_nonzero == state.last_nonzero);
    assert(after.first_nonzero_offset == state.first_nonzero_offset);
    assert(after.last_nonzero_offset == state.last_nonzero_offset);
    assert(after.last_digit_offset == state.last_digit_offset);
}

proof fn lemma_step_gathers(state: NumberState, written: Written, lenient: bool, json5: bool, start: int)
    requires
        0 <= start,
        written.fits(lenient, json5),
        written.stage() != NumberLex::Start,
        knows_digits(state, written.before(), start),
        knows_parts(state, written.before(), start),
        start + written.text().len() < u32::MAX,
    ensures
        lex_step(state.lex, written.last(), state.digit_count > 0, lenient, json5) == LexStep::Take(written.stage()),
        knows_digits(moved_on(state.taken(written.last(), written.stage())), written, start),
        knows_parts(moved_on(state.taken(written.last(), written.stage())), written, start),
{
    lemma_written_text_shrinks(written, lenient, json5);
    let length = written.text().len() as int;
    assert(length == written.before().text().len() + 1);
    lemma_step_is_taken(state, written, lenient, json5);
    lemma_step_knows_parts(state, written, lenient, json5, start, length);
    lemma_step_knows_digits(state, written, lenient, json5, start, length - 1);
}

/// The facts that the machine gathers over a number, or over the start of one, are the number's own, for every spelling that
/// a dialect has: it takes the whole text, it knows every digit and where it stands, and it knows which spellings strict
/// JSON does not have.
pub proof fn lemma_dialects_gather_what_is_written(
    state: NumberState,
    written: Written,
    lenient: bool,
    json5: bool,
    start: int,
)
    requires
        0 <= start,
        written.fits(lenient, json5),
        state.lex == NumberLex::Start,
        state.start == start && state.cursor == start,
        !state.negative,
        state.untouched(),
        start + written.text().len() < u32::MAX,
    ensures
        dialect_driven(state, written.text(), lenient, json5) matches Some(after) && knows_digits(after, written, start)
            && knows_parts(after, written, start),
    decreases written.text().len(),
{
    if written.stage() == NumberLex::Start {
        assert(written.text() =~= seq![]) by {
            reveal(Written::text);
        }
        assert(written.coefficient() =~= seq![]);
    } else {
        let before = written.before();
        assert(before.fits(lenient, json5)) by {
            lemma_byte_was_taken(written, lenient, json5);
        }
        lemma_written_text_shrinks(written, lenient, json5);
        assert(written.text().len() == before.text().len() + 1);
        lemma_dialects_gather_what_is_written(state, before, lenient, json5, start);
        assert(written.text().drop_last() =~= before.text());
        assert(written.text().last() == written.last());
        lemma_step_gathers(
            dialect_driven(state, before.text(), lenient, json5)->0,
            written,
            lenient,
            json5,
            start,
        );
    }
}

/// The canonical text of an integer is its digits from the first that is not zero on, whatever zeroes a lenient reader let
/// stand in front of them.
pub proof fn lemma_leading_zeroes_are_left_out(state: NumberState, written: Written, lenient: bool, start: int, first: int)
    requires
        0 <= start,
        knows_digits(state, written, start),
        knows_parts(state, written, start),
        written.fits(lenient, false),
        !written.point && written.marker is None && written.cross is None,
        written.sign != Some(0x2bu8) || lenient,
        0 <= first < written.whole.len(),
        written.whole[first] != 0x30,
        forall|i: int| 0 <= i < first ==> #[trigger] written.whole[i] == 0x30,
    ensures
        finish_plan(state, lenient) == Ok::<Option<(usize, usize, Option<i64>)>, CodecFailureKind>(
            Some(
                (
                    (start + perhaps(written.sign).len() + first) as usize,
                    (start + written.text().len()) as usize,
                    None,
                ),
            ),
        ),
{
    assert(written.coefficient() =~= written.whole);
    assert(written.coefficient()[first] != 0x30);
    assert(state.first_nonzero is Some);
    let own = state.first_nonzero->0 as int;
    assert(own == first) by {
        if own < first {
            assert(written.whole[own] == 0x30);
        }
        if first < own {
            assert(written.coefficient()[first] == 0x30);
        }
    }
    if first > 0 {
        assert(written.whole[0] == 0x30);
    }
}

proof fn lemma_a_digit_of_a_run(state: NumberState, byte: u8, lenient: bool, json5: bool)
    requires
        state.lex == NumberLex::Integer || state.lex == NumberLex::Fraction,
        figure(byte),
    ensures
        lex_step(state.lex, byte, state.digit_count > 0, lenient, json5) == LexStep::Take(state.lex),
        moved_on(state.taken(byte, state.lex)) == (NumberState {
            cursor: (state.cursor + 1) as u32,
            ..state.with_digit(byte, state.lex == NumberLex::Fraction)
        }),
        state.with_digit(byte, state.lex == NumberLex::Fraction).lex == state.lex,
        state.with_digit(byte, state.lex == NumberLex::Fraction).cursor == state.cursor,
{
}

/// A run of digits taken in bulk leaves the machine where taking them one by one does, inside an integer and inside a
/// fraction.
#[verifier::spinoff_prover]
pub proof fn lemma_a_run_is_its_digits(state: NumberState, digits: Seq<u8>, lenient: bool, json5: bool)
    requires
        state.lex == NumberLex::Integer || state.lex == NumberLex::Fraction,
        figures(digits),
    ensures
        dialect_driven(state, digits, lenient, json5) == Some(
            state.with_digits(digits, state.lex == NumberLex::Fraction),
        ),
        state.with_digits(digits, state.lex == NumberLex::Fraction).lex == state.lex,
    decreases digits.len(),
{
    if digits.len() > 0 {
        let head = digits.drop_last();
        assert(figure(digits[digits.len() - 1]));
        assert forall|i: int| 0 <= i < head.len() implies figure(#[trigger] head[i]) by {
            assert(figure(digits[i]));
        }
        lemma_a_run_is_its_digits(state, head, lenient, json5);
        let before = state.with_digits(head, state.lex == NumberLex::Fraction);
        lemma_a_digit_of_a_run(before, digits.last(), lenient, json5);
    }
}

} // verus!
