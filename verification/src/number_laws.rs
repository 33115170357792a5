//! What the number machine promises as a whole: strict driving accepts exactly RFC 8259's numbers, the exponent is exact,
//! the gathered facts agree with each other, and the two plans agree on range and value.

use vstd::prelude::*;

use crate::ascii::{DOT, MINUS, PLUS, ZERO};

use crate::error::CodecFailureKind;
use crate::lex::{ends_at_boundary, verbatim_end};
use crate::number::{
    complete, digit_run_end, finish_plan, is_digit, is_exponent_marker, lex_step, render_plan, verbatim_source,
    LexStep, NumberLex, NumberState,
};

verus! {

/// Every byte is a decimal digit.
pub open spec fn all_digits(bytes: Seq<u8>) -> bool {
    forall|i: int| 0 <= i < bytes.len() ==> is_digit(#[trigger] bytes[i])
}

/// `text` without a leading `-`.
pub open spec fn magnitude(text: Seq<u8>) -> Seq<u8> {
    if text.len() > 0 && text[0] == MINUS {
        text.skip(1)
    } else {
        text
    }
}

/// RFC 8259's `int`, behind its optional minus: `0`, or digits that do not start with a zero.
pub open spec fn integer_text(text: Seq<u8>) -> bool {
    let digits = magnitude(text);
    digits.len() > 0 && all_digits(digits) && (digits[0] == ZERO ==> digits.len() == 1)
}

/// An integer text and a `frac`: a point at `at`, and digits to the end.
pub open spec fn fraction_split(text: Seq<u8>, at: int) -> bool {
    0 <= at < text.len() - 1 && integer_text(text.take(at)) && text[at] == DOT && all_digits(text.skip(at + 1))
}

/// An integer text, alone or with a fraction.
pub open spec fn mantissa_text(text: Seq<u8>) -> bool {
    integer_text(text) || exists|at: int| fraction_split(text, at)
}

/// The digits of an exponent, behind an optional sign.
pub open spec fn exponent_text(text: Seq<u8>) -> bool {
    let digits = if text.len() > 0 && (text[0] == PLUS || text[0] == MINUS) {
        text.skip(1)
    } else {
        text
    };
    digits.len() > 0 && all_digits(digits)
}

/// A mantissa and an `exp`: an exponent marker at `at`, and an exponent to the end.
pub open spec fn exponent_split(text: Seq<u8>, at: int) -> bool {
    0 <= at < text.len() && mantissa_text(text.take(at)) && is_exponent_marker(text[at]) && exponent_text(
        text.skip(at + 1),
    )
}

/// RFC 8259's `number`: `[ minus ] int [ frac ] [ exp ]`.
pub open spec fn rfc8259_number(text: Seq<u8>) -> bool {
    mantissa_text(text) || exists|at: int| exponent_split(text, at)
}

/// Where the strict machine stands after it took every byte of `text`, if it took them all.
pub open spec fn strict_lex(text: Seq<u8>) -> Option<NumberLex>
    decreases text.len(),
{
    if text.len() == 0 {
        Some(NumberLex::Start)
    } else {
        match strict_lex(text.drop_last()) {
            Some(lex) => match lex_step(lex, text.last(), true, false, false) {
                LexStep::Take(next) => Some(next),
                _ => None,
            },
            None => None,
        }
    }
}

/// Where the machine stands after it took every byte of `text` under a dialect, if it took them all.
pub open spec fn dialect_lex(text: Seq<u8>, lenient: bool, json5: bool) -> Option<NumberLex>
    decreases text.len(),
{
    if text.len() == 0 {
        Some(NumberLex::Start)
    } else {
        let head = text.drop_last();
        match dialect_lex(head, lenient, json5) {
            Some(lex) => match lex_step(
                lex,
                text.last(),
                exists|i: int| 0 <= i < head.len() && is_digit(#[trigger] head[i]),
                lenient,
                json5,
            ) {
                LexStep::Take(next) => Some(next),
                _ => None,
            },
            None => None,
        }
    }
}

/// Every dialect accepts strict JSON's numbers: it takes each of their bytes to where the strict machine stands, and lets
/// a number end wherever strict JSON does.
pub proof fn lemma_dialects_accept_strict_numbers(text: Seq<u8>, lenient: bool, json5: bool, digits: int)
    requires
        strict_lex(text) is Some,
    ensures
        dialect_lex(text, lenient, json5) == strict_lex(text),
        complete(strict_lex(text)->0, false, false, digits) ==> complete(strict_lex(text)->0, lenient, json5, digits),
    decreases text.len(),
{
    if text.len() > 0 {
        lemma_dialects_accept_strict_numbers(text.drop_last(), lenient, json5, digits);
    }
}

/// What the text behind each strict lexeme looks like.
spec fn shape(lex: NumberLex, text: Seq<u8>) -> bool {
    match lex {
        NumberLex::Start => text.len() == 0,
        NumberLex::IntegerStart => text.len() == 1 && text[0] == MINUS,
        NumberLex::Zero => integer_text(text) && magnitude(text)[0] == ZERO,
        NumberLex::Integer => integer_text(text) && magnitude(text)[0] != ZERO,
        NumberLex::FractionStart => text.len() > 0 && integer_text(text.drop_last()) && text.last() == DOT,
        NumberLex::Fraction => exists|at: int| fraction_split(text, at),
        NumberLex::ExponentStart => text.len() > 0 && mantissa_text(text.drop_last()) && is_exponent_marker(text.last()),
        NumberLex::ExponentSign => text.len() > 1 && mantissa_text(text.take(text.len() - 2)) && is_exponent_marker(
            text[text.len() - 2],
        ) && (text.last() == PLUS || text.last() == MINUS),
        NumberLex::Exponent => exists|at: int| exponent_split(text, at),
        NumberLex::Hex => false,
    }
}

proof fn lemma_integer_text_extends(text: Seq<u8>)
    requires
        text.len() > 0,
        is_digit(text.last()),
    ensures
        integer_text(text) <==> {
            let head = text.drop_last();
            ||| head.len() == 0
            ||| head.len() == 1 && head[0] == MINUS
            ||| integer_text(head) && magnitude(head)[0] != ZERO
        },
{
    let head = text.drop_last();
    let digits = magnitude(text);
    if head.len() > 0 && head[0] == MINUS {
        assert(text[0] == head[0]);
        assert(digits =~= magnitude(head).push(text.last()));
    } else if head.len() > 0 {
        assert(text[0] == head[0]);
        assert(digits =~= head.push(text.last()));
    } else {
        assert(digits =~= text);
        assert(text[0] == text.last());
    }
    if integer_text(text) && head.len() > 0 && !(head.len() == 1 && head[0] == MINUS) {
        let inner = magnitude(head);
        assert(inner.len() > 0);
        assert(digits[0] == inner[0]);
        assert(all_digits(inner)) by {
            assert forall|i: int| 0 <= i < inner.len() implies is_digit(#[trigger] inner[i]) by {
                assert(inner[i] == digits[i]);
            }
        }
    }
}

proof fn lemma_fraction_extends(text: Seq<u8>)
    requires
        text.len() > 0,
        is_digit(text.last()),
    ensures
        (exists|at: int| fraction_split(text, at)) <==> {
            let head = text.drop_last();
            ||| head.len() > 0 && integer_text(head.drop_last()) && head.last() == DOT
            ||| exists|at: int| fraction_split(head, at)
        },
{
    let head = text.drop_last();
    if exists|at: int| fraction_split(text, at) {
        let at = choose|at: int| fraction_split(text, at);
        if at == text.len() - 2 {
            assert(head.drop_last() =~= text.take(at));
            assert(head.last() == text[at]);
        } else {
            assert(head.take(at) =~= text.take(at));
            let tail = head.skip(at + 1);
            assert forall|i: int| 0 <= i < tail.len() implies is_digit(#[trigger] tail[i]) by {
                assert(tail[i] == text.skip(at + 1)[i]);
            }
            assert(fraction_split(head, at));
        }
    }
    if head.len() > 0 && integer_text(head.drop_last()) && head.last() == DOT {
        let at = text.len() - 2;
        assert(text.take(at) =~= head.drop_last());
        assert(text[at] == head.last());
        assert(text.skip(at + 1) =~= seq![text.last()]);
        assert(fraction_split(text, at));
    }
    if exists|at: int| fraction_split(head, at) {
        let at = choose|at: int| fraction_split(head, at);
        assert(text.take(at) =~= head.take(at));
        let tail = text.skip(at + 1);
        assert(tail =~= head.skip(at + 1).push(text.last()));
        assert(fraction_split(text, at));
    }
}

/// One more digit: an exponent goes on, or starts behind its marker or its sign.
proof fn lemma_exponent_text_extends(inner: Seq<u8>, digit: u8)
    requires
        is_digit(digit),
    ensures
        exponent_text(inner.push(digit)) <==> {
            ||| inner.len() == 0
            ||| inner.len() == 1 && (inner[0] == PLUS || inner[0] == MINUS)
            ||| exponent_text(inner)
        },
{
    let tail = inner.push(digit);
    if inner.len() > 0 {
        assert(tail[0] == inner[0]);
        let signed = inner[0] == PLUS || inner[0] == MINUS;
        let digits = if signed {
            inner.skip(1)
        } else {
            inner
        };
        let all = if signed {
            tail.skip(1)
        } else {
            tail
        };
        assert(all =~= digits.push(digit));
        if all_digits(all) {
            assert forall|i: int| 0 <= i < digits.len() implies is_digit(#[trigger] digits[i]) by {
                assert(digits[i] == all[i]);
            }
        }
    }
}

/// Where an exponent stands in a text that ends in a digit, its marker stands before the digit.
proof fn lemma_exponent_split_extends(text: Seq<u8>, at: int)
    requires
        text.len() > 0,
        is_digit(text.last()),
        0 <= at < text.len() - 1,
    ensures
        exponent_split(text, at) <==> mantissa_text(text.take(at)) && is_exponent_marker(text[at]) && {
            let inner = text.drop_last().skip(at + 1);
            ||| inner.len() == 0
            ||| inner.len() == 1 && (inner[0] == PLUS || inner[0] == MINUS)
            ||| exponent_text(inner)
        },
{
    let inner = text.drop_last().skip(at + 1);
    assert(text.skip(at + 1) =~= inner.push(text.last()));
    lemma_exponent_text_extends(inner, text.last());
}

proof fn lemma_exponent_extends(text: Seq<u8>)
    requires
        text.len() > 0,
        is_digit(text.last()),
    ensures
        (exists|at: int| exponent_split(text, at)) <==> {
            let head = text.drop_last();
            ||| head.len() > 0 && mantissa_text(head.drop_last()) && is_exponent_marker(head.last())
            ||| head.len() > 1 && mantissa_text(head.take(head.len() - 2)) && is_exponent_marker(head[head.len() - 2])
                && (head.last() == PLUS || head.last() == MINUS)
            ||| exists|at: int| exponent_split(head, at)
        },
{
    let head = text.drop_last();
    if exists|at: int| exponent_split(text, at) {
        let at = choose|at: int| exponent_split(text, at);
        assert(at < text.len() - 1);
        lemma_exponent_split_extends(text, at);
        assert(head.take(at) =~= text.take(at));
        assert(head[at] == text[at]);
        let inner = head.skip(at + 1);
        if inner.len() == 0 {
            assert(head.drop_last() =~= text.take(at));
        } else if inner.len() == 1 && (inner[0] == PLUS || inner[0] == MINUS) {
            assert(head.last() == inner[0]);
            assert(head.take(head.len() - 2) =~= text.take(at));
        } else {
            assert(exponent_split(head, at));
        }
    }
    if head.len() > 0 && mantissa_text(head.drop_last()) && is_exponent_marker(head.last()) {
        let at = text.len() - 2;
        assert(text.take(at) =~= head.drop_last());
        lemma_exponent_split_extends(text, at);
        assert(exponent_split(text, at));
    }
    if head.len() > 1 && mantissa_text(head.take(head.len() - 2)) && is_exponent_marker(head[head.len() - 2]) && (
    head.last() == PLUS || head.last() == MINUS) {
        let at = text.len() - 3;
        assert(text.take(at) =~= head.take(head.len() - 2));
        assert(head.skip(at + 1)[0] == head.last());
        lemma_exponent_split_extends(text, at);
        assert(exponent_split(text, at));
    }
    if exists|at: int| exponent_split(head, at) {
        let at = choose|at: int| exponent_split(head, at);
        assert(text.take(at) =~= head.take(at));
        lemma_exponent_split_extends(text, at);
        assert(exponent_split(text, at));
    }
}

/// A text that ends in something other than a digit is no integer, fraction, or exponent text.
proof fn lemma_texts_end_in_digits(text: Seq<u8>)
    ensures
        integer_text(text) ==> is_digit(text.last()) && text.len() > 0,
        (exists|at: int| fraction_split(text, at)) ==> is_digit(text.last()) && text.len() > 0,
        (exists|at: int| exponent_split(text, at)) ==> is_digit(text.last()) && text.len() > 0,
{
    if integer_text(text) {
        let digits = magnitude(text);
        assert(digits[digits.len() - 1] == text.last());
    }
    if exists|at: int| fraction_split(text, at) {
        let at = choose|at: int| fraction_split(text, at);
        let tail = text.skip(at + 1);
        assert(tail[tail.len() - 1] == text.last());
    }
    if exists|at: int| exponent_split(text, at) {
        let at = choose|at: int| exponent_split(text, at);
        let tail = text.skip(at + 1);
        if tail.len() > 0 && (tail[0] == PLUS || tail[0] == MINUS) {
            let digits = tail.skip(1);
            assert(digits[digits.len() - 1] == text.last());
        } else {
            assert(tail[tail.len() - 1] == text.last());
        }
    }
}

proof fn lemma_strict_lex_shapes(text: Seq<u8>)
    ensures
        strict_lex(text) matches Some(lex) ==> shape(lex, text),
        forall|lex: NumberLex| shape(lex, text) ==> strict_lex(text) == Some(lex),
    decreases text.len(),
{
    lemma_texts_end_in_digits(text);
    if text.len() > 0 {
        let head = text.drop_last();
        let last = text.last();
        lemma_strict_lex_shapes(head);
        lemma_texts_end_in_digits(head);
        lemma_texts_end_in_digits(head.drop_last());
        if is_digit(last) {
            lemma_integer_text_extends(text);
            lemma_fraction_extends(text);
            lemma_exponent_extends(text);
            if head.len() > 0 {
                assert(magnitude(text)[0] == if head[0] == MINUS && head.len() == 1 {
                    last
                } else {
                    magnitude(head)[0]
                });
            } else {
                assert(magnitude(text)[0] == last);
            }
        } else if text.len() > 1 {
            assert(text.take(text.len() - 2) =~= head.drop_last());
            assert(text[text.len() - 2] == head.last());
        }
        assert forall|lex: NumberLex| shape(lex, text) implies strict_lex(text) == Some(lex) by {
            match lex {
                NumberLex::Start => {},
                NumberLex::IntegerStart => {
                    assert(shape(NumberLex::Start, head));
                },
                NumberLex::Zero => {
                    if head.len() == 0 {
                        assert(shape(NumberLex::Start, head));
                    } else if head.len() == 1 && head[0] == MINUS {
                        assert(shape(NumberLex::IntegerStart, head));
                    } else {
                        assert(shape(NumberLex::Integer, head));
                    }
                },
                NumberLex::Integer => {
                    if head.len() == 0 {
                        assert(shape(NumberLex::Start, head));
                    } else if head.len() == 1 && head[0] == MINUS {
                        assert(shape(NumberLex::IntegerStart, head));
                    } else {
                        assert(shape(NumberLex::Integer, head));
                    }
                },
                NumberLex::FractionStart => {
                    if magnitude(head)[0] == ZERO {
                        assert(shape(NumberLex::Zero, head));
                    } else {
                        assert(shape(NumberLex::Integer, head));
                    }
                },
                NumberLex::Fraction => {
                    if exists|at: int| fraction_split(head, at) {
                        assert(shape(NumberLex::Fraction, head));
                    } else {
                        assert(shape(NumberLex::FractionStart, head));
                    }
                },
                NumberLex::ExponentStart => {
                    if !integer_text(head) {
                        assert(shape(NumberLex::Fraction, head));
                    } else if magnitude(head)[0] == ZERO {
                        assert(shape(NumberLex::Zero, head));
                    } else {
                        assert(shape(NumberLex::Integer, head));
                    }
                },
                NumberLex::ExponentSign => {
                    assert(shape(NumberLex::ExponentStart, head));
                },
                NumberLex::Exponent => {
                    if exists|at: int| exponent_split(head, at) {
                        assert(shape(NumberLex::Exponent, head));
                    } else if mantissa_text(head.drop_last()) && is_exponent_marker(head.last()) {
                        assert(shape(NumberLex::ExponentStart, head));
                    } else {
                        assert(shape(NumberLex::ExponentSign, head));
                    }
                },
                NumberLex::Hex => {},
            }
        }
    } else {
        assert forall|lex: NumberLex| shape(lex, text) implies strict_lex(text) == Some(lex) by {
            match lex {
                NumberLex::Fraction => {
                    let at = choose|at: int| fraction_split(text, at);
                },
                NumberLex::Exponent => {
                    let at = choose|at: int| exponent_split(text, at);
                },
                _ => {},
            }
        }
    }
}

/// Driven strictly, the machine takes the whole of a text and may end there exactly when the text is an RFC 8259 number.
pub proof fn lemma_strict_machine_is_the_grammar(text: Seq<u8>)
    ensures
        rfc8259_number(text) <==> (strict_lex(text) matches Some(lex) && complete(lex, false, false, 0)),
{
    lemma_strict_lex_shapes(text);
    if rfc8259_number(text) {
        if integer_text(text) {
            if magnitude(text)[0] == ZERO {
                assert(shape(NumberLex::Zero, text));
            } else {
                assert(shape(NumberLex::Integer, text));
            }
        } else if exists|at: int| fraction_split(text, at) {
            assert(shape(NumberLex::Fraction, text));
        } else {
            assert(shape(NumberLex::Exponent, text));
        }
    }
}

/// The number a run of decimal digits spells.
pub open spec fn digits_number(digits: Seq<u8>) -> nat
    decreases digits.len(),
{
    if digits.len() == 0 {
        0
    } else {
        (digits_number(digits.drop_last()) * 10 + (digits.last() - ZERO)) as nat
    }
}

/// A state after a run of exponent digits.
pub open spec fn with_exponent_digits(state: NumberState, digits: Seq<u8>) -> NumberState
    decreases digits.len(),
{
    if digits.len() == 0 {
        state
    } else {
        with_exponent_digits(state, digits.drop_last()).with_exponent_digit(digits.last())
    }
}

/// The exponent is exact: from no exponent, a run of digits accumulates to the number it spells, and overflow is raised
/// exactly when that number is past the accumulator's range.
pub proof fn lemma_exponent_is_exact(state: NumberState, digits: Seq<u8>)
    requires
        state.exponent == 0,
        !state.exponent_overflow,
        all_digits(digits),
    ensures
        ({
            let after = with_exponent_digits(state, digits);
            &&& after.exponent_overflow <==> digits_number(digits) > u128::MAX
            &&& !after.exponent_overflow ==> after.exponent == digits_number(digits)
        }),
    decreases digits.len(),
{
    if digits.len() > 0 {
        let head = digits.drop_last();
        assert(all_digits(head));
        assert(is_digit(digits.last()));
        lemma_exponent_is_exact(state, head);
    }
}

/// The facts of a state between bytes agree with each other: nonzero digits are digits, every offset lies before the
/// cursor, and the nonzero facts are all there or all absent.
pub open spec fn facts_agree(state: NumberState) -> bool {
    &&& state.first_nonzero is Some <==> state.last_nonzero is Some
    &&& state.first_nonzero is Some <==> state.first_nonzero_offset is Some
    &&& state.first_nonzero is Some <==> state.last_nonzero_offset is Some
    &&& state.first_nonzero is Some ==> {
        &&& state.first_nonzero->0 <= state.last_nonzero->0 < state.digit_count
        &&& state.first_nonzero_offset->0 <= state.last_nonzero_offset->0 <= state.last_digit_offset->0
    }
    &&& state.digit_count > 0 <==> state.last_digit_offset is Some
    &&& state.last_digit_offset is Some ==> state.last_digit_offset->0 < state.cursor
}

/// `state` with the cursor moved past the byte it took.
pub open spec fn moved_on(state: NumberState) -> NumberState {
    NumberState { cursor: (state.cursor + 1) as u32, ..state }
}

/// A number that has just started has facts that agree, and every byte the machine takes, the cursor moved past it,
/// keeps them agreeing.
pub proof fn lemma_facts_stay_in_agreement(state: NumberState, byte: u8, lenient: bool, json5: bool)
    ensures
        state.untouched() ==> facts_agree(state),
        facts_agree(state) && state.cursor < u32::MAX ==> match lex_step(
            state.lex,
            byte,
            state.digit_count > 0,
            lenient,
            json5,
        ) {
            LexStep::Take(next) => !(state.reads_digit(next) && state.digits_full(next == NumberLex::Fraction))
                ==> facts_agree(moved_on(state.taken(byte, next))),
            _ => true,
        },
{
}

/// On facts that agree, neither plan meets a state it must never see: an accepted number always has its ranges.
pub proof fn lemma_plans_never_meet_a_broken_state(state: NumberState, lenient: bool)
    requires
        facts_agree(state),
    ensures
        state.counts_agree(),
        finish_plan(state, lenient) != Err::<Option<(usize, usize, Option<i64>)>, CodecFailureKind>(
            CodecFailureKind::InternalContractViolation,
        ),
        render_plan(state) is Ok,
{
}

/// A zero mantissa obeys the range law of every other: the two plans agree on whether it is in range and on its scale.
pub proof fn lemma_zero_mantissa_shares_the_range_law(state: NumberState, lenient: bool)
    requires
        state.first_nonzero is None,
        state.has_fraction_or_exponent,
    ensures
        match (finish_plan(state, lenient), render_plan(state)) {
            (Ok(Some((start, end, scale))), Ok(Some((render_start, render_end, render_scale)))) => start == render_start
                && end == render_end && scale == Some(render_scale),
            (Ok(None), Ok(None)) => true,
            _ => false,
        },
{
}

/// The two plans of a decimal name one value: they start at the same digit, and where the canonical range drops trailing
/// zeroes, its scale drops by as many.
pub proof fn lemma_plans_name_one_value(state: NumberState, lenient: bool)
    requires
        facts_agree(state),
        state.first_nonzero is Some,
        state.has_fraction_or_exponent,
    ensures
        match (finish_plan(state, lenient), render_plan(state)) {
            (Ok(Some((start, end, scale))), Ok(Some((render_start, render_end, render_scale)))) => {
                &&& start == render_start
                &&& end <= render_end
                &&& scale matches Some(scale) && scale == render_scale - state.trailing_zeroes()
            },
            _ => true,
        },
{
}

proof fn lemma_digit_run_end(bytes: Seq<u8>, from: int)
    requires
        0 <= from <= bytes.len(),
    ensures
        from <= digit_run_end(bytes, from) <= bytes.len(),
        all_digits(bytes.subrange(from, digit_run_end(bytes, from))),
    decreases bytes.len() - from,
{
    if from < bytes.len() && is_digit(bytes[from]) {
        lemma_digit_run_end(bytes, from + 1);
        let end = digit_run_end(bytes, from);
        let run = bytes.subrange(from, end);
        assert forall|i: int| 0 <= i < run.len() implies is_digit(#[trigger] run[i]) by {
            if i > 0 {
                assert(run[i] == bytes.subrange(from + 1, end)[i - 1]);
            }
        }
    }
}

/// A verbatim integer is an RFC 8259 integer that ends at a value boundary: the strict machine takes it whole and may end
/// there.
pub proof fn lemma_verbatim_integer_is_a_number(bytes: Seq<u8>, start: int)
    requires
        0 <= start <= bytes.len(),
        verbatim_end(bytes, start) is Some,
    ensures
        ({
            let end = verbatim_end(bytes, start)->0;
            let text = bytes.subrange(start, end);
            &&& start < end <= bytes.len()
            &&& ends_at_boundary(bytes, end)
            &&& integer_text(text)
            &&& strict_lex(text) == Some(NumberLex::Zero) || strict_lex(text) == Some(NumberLex::Integer)
        }),
{
    let end = verbatim_end(bytes, start)->0;
    let first = if start < bytes.len() && bytes[start] == MINUS {
        start + 1
    } else {
        start
    };
    lemma_digit_run_end(bytes, first);
    let text = bytes.subrange(start, end);
    assert(text[0] == bytes[start]);
    let digits = magnitude(text);
    assert(digits =~= bytes.subrange(first, end));
    assert(digits[0] == bytes[first]);
    assert(all_digits(digits));
    lemma_strict_lex_shapes(text);
    if digits[0] == ZERO {
        assert(shape(NumberLex::Zero, text));
    } else {
        assert(shape(NumberLex::Integer, text));
    }
}

/// A verbatim number's canonical copy is its own span: everything but a minus sign for a nonzero integer, nothing for
/// zero, and no scale either way.
pub proof fn lemma_verbatim_plan_is_the_span(state: NumberState, lenient: bool)
    requires
        facts_agree(state),
        verbatim_source(state),
        state.start < u32::MAX,
    ensures
        finish_plan(state, lenient) == Ok::<Option<(usize, usize, Option<i64>)>, CodecFailureKind>(
            Some(
                if state.first_nonzero is None {
                    (0, 0, None)
                } else if state.negative {
                    ((state.start + 1) as usize, state.cursor as usize, None)
                } else {
                    (state.start as usize, state.cursor as usize, None)
                },
            ),
        ),
{
}

} // verus!
