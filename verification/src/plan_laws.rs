//! What the number machine makes of a spelling: the facts that it gathers are the spelling's own, and each of its plans names
//! the value that the spelling stands for.

use vstd::arithmetic::power::pow;
use vstd::prelude::*;

use crate::decimal_laws::{
    lemma_parts_stand, lemma_places_add, lemma_places_are_no_less_than_none, lemma_places_push,
    lemma_tested_number_is_what_is_spelled, places, Spelling,
};
use crate::byte_scan::StopSet;
use crate::count_filter::{member_at, MemberView};
use crate::number::{finish_plan, lex_step, render_plan, without_points, LexStep, NumberLex, NumberState};
use crate::number_laws::moved_on;

verus! {

/// The machine after one byte, the cursor moved past it, if it takes the byte.
pub open spec fn stepped(state: NumberState, byte: u8) -> Option<NumberState> {
    match lex_step(state.lex, byte, state.digit_count > 0, false, false) {
        LexStep::Take(next) => Some(moved_on(state.taken(byte, next))),
        _ => None,
    }
}

/// The machine after every byte of `text`, driven strictly, if it takes them all.
pub open spec fn driven(state: NumberState, text: Seq<u8>) -> Option<NumberState>
    decreases text.len(),
{
    if text.len() == 0 {
        Some(state)
    } else {
        match driven(state, text.drop_last()) {
            Some(before) => stepped(before, text.last()),
            None => None,
        }
    }
}

/// Where coefficient digit `index` of a number that starts at `start` stands.
pub open spec fn digit_at(spelling: Spelling, start: int, index: int) -> int {
    if index < spelling.whole.len() {
        start + spelling.first() + index
    } else {
        start + spelling.first() + index + 1
    }
}

/// Whether the state counts exactly the first `count` coefficient digits: how many there are, how many stand behind the
/// point, where the last of them stands, and which of them are the first and the last that are not zero.
pub open spec fn counts(state: NumberState, spelling: Spelling, start: int, count: int) -> bool {
    let digits = spelling.coefficient();
    &&& state.digit_count == count
    &&& state.fraction_digits == if count > spelling.whole.len() {
        count - spelling.whole.len()
    } else {
        0
    }
    &&& match state.last_digit_offset {
        Some(at) => count > 0 && at == digit_at(spelling, start, count - 1),
        None => count == 0,
    }
    &&& match (state.first_nonzero, state.first_nonzero_offset, state.last_nonzero, state.last_nonzero_offset) {
        (Some(first), Some(first_at), Some(last), Some(last_at)) => {
            &&& 0 <= first <= last < count
            &&& digits[first as int] != 0x30 && digits[last as int] != 0x30
            &&& forall|i: int| 0 <= i < first ==> #[trigger] digits[i] == 0x30
            &&& forall|i: int| last < i < count ==> #[trigger] digits[i] == 0x30
            &&& first_at == digit_at(spelling, start, first as int)
            &&& last_at == digit_at(spelling, start, last as int)
        },
        (None, None, None, None) => forall|i: int| 0 <= i < count ==> #[trigger] digits[i] == 0x30,
        _ => false,
    }
}

/// Whether a number is about to be read at `start`, and there is room for its text.
pub open spec fn ready(state: NumberState, spelling: Spelling, start: int) -> bool {
    &&& state.start == start
    &&& state.cursor == start
    &&& state.lex == NumberLex::Start
    &&& !state.negative
    &&& state.untouched()
    &&& start + spelling.text().len() < u32::MAX
}

/// What every state of the machine on its way through a number says.
spec fn underway(state: NumberState, spelling: Spelling, start: int, count: int, at: int) -> bool {
    &&& counts(state, spelling, start, count)
    &&& state.start == start
    &&& state.cursor == start + at
    &&& state.negative == spelling.negative
    &&& !state.lenient_spelling
}

/// One coefficient digit more is counted.
proof fn lemma_digit_is_counted(state: NumberState, spelling: Spelling, start: int, count: int, next: NumberLex)
    requires
        counts(state, spelling, start, count),
        0 <= count < spelling.coefficient().len(),
        state.cursor == digit_at(spelling, start, count),
        0 <= start,
        state.cursor < u32::MAX,
        next == NumberLex::Zero || next == NumberLex::Integer || next == NumberLex::Fraction,
        next == NumberLex::Fraction <==> count >= spelling.whole.len(),
    ensures
        counts(moved_on(state.taken(spelling.coefficient()[count], next)), spelling, start, count + 1),
{
    let digits = spelling.coefficient();
    let after = moved_on(state.taken(digits[count], next));
    assert(after.digit_count == count + 1);
    assert(digit_at(spelling, start, count + 1 - 1) == digit_at(spelling, start, count));
}

/// The integer digits are counted.
proof fn lemma_whole_is_counted(state: NumberState, spelling: Spelling, start: int, count: int)
    requires
        spelling.is_json(),
        ready(state, spelling, start),
        1 <= count <= spelling.whole.len(),
    ensures
        ({
            let at = spelling.first() + count;
            let after = driven(state, spelling.text().take(at));
            &&& after matches Some(after)
            &&& underway(after, spelling, start, count, at)
            &&& after.lex == if spelling.whole[0] == 0x30 {
                NumberLex::Zero
            } else {
                NumberLex::Integer
            }
            &&& after.exponent == 0 && !after.exponent_overflow && !after.exponent_negative
            &&& !after.has_fraction_or_exponent
        }),
    decreases count,
{
    let text = spelling.text();
    let at = spelling.first() + count;
    lemma_parts_stand(spelling);
    let head = text.take(at - 1);
    assert(text.take(at).drop_last() =~= head);
    assert(text.take(at).last() == text[at - 1]);
    assert(text[at - 1] == spelling.whole[count - 1]);
    assert(spelling.coefficient()[count - 1] == spelling.whole[count - 1]);
    assert(0x30 <= spelling.whole[count - 1] <= 0x39);
    let next = if spelling.whole[0] == 0x30 {
        NumberLex::Zero
    } else {
        NumberLex::Integer
    };
    if count > 1 {
        lemma_whole_is_counted(state, spelling, start, count - 1);
        let prior = driven(state, head)->0;
        lemma_digit_is_counted(prior, spelling, start, count - 1, next);
    } else if spelling.negative {
        assert(head.drop_last() =~= Seq::<u8>::empty());
        assert(head.last() == text[0]);
        assert(driven(state, head.drop_last()) == Some(state));
        let prior = driven(state, head)->0;
        assert(prior == moved_on(state.taken(0x2d, NumberLex::IntegerStart)));
        lemma_digit_is_counted(prior, spelling, start, 0, next);
    } else {
        assert(head =~= Seq::<u8>::empty());
        assert(driven(state, head) == Some(state));
        lemma_digit_is_counted(state, spelling, start, 0, next);
    }
}

/// The fraction's digits are counted.
proof fn lemma_fraction_is_counted(state: NumberState, spelling: Spelling, start: int, count: int)
    requires
        spelling.is_json(),
        ready(state, spelling, start),
        spelling.fraction.len() > 0,
        0 <= count <= spelling.fraction.len(),
    ensures
        ({
            let at = spelling.behind_point() + count;
            let after = driven(state, spelling.text().take(at));
            &&& after matches Some(after)
            &&& underway(after, spelling, start, spelling.whole.len() + count, at)
            &&& after.lex == if count == 0 {
                NumberLex::FractionStart
            } else {
                NumberLex::Fraction
            }
            &&& after.exponent == 0 && !after.exponent_overflow && !after.exponent_negative
            &&& after.has_fraction_or_exponent
        }),
    decreases count,
{
    let text = spelling.text();
    let at = spelling.behind_point() + count;
    lemma_parts_stand(spelling);
    let head = text.take(at - 1);
    assert(text.take(at).drop_last() =~= head);
    assert(text.take(at).last() == text[at - 1]);
    if count == 0 {
        lemma_whole_is_counted(state, spelling, start, spelling.whole.len() as int);
    } else {
        lemma_fraction_is_counted(state, spelling, start, count - 1);
        assert(text[at - 1] == spelling.fraction[count - 1]);
        assert(spelling.coefficient()[spelling.whole.len() + count - 1] == spelling.fraction[count - 1]);
        assert(0x30 <= spelling.fraction[count - 1] <= 0x39);
        let prior = driven(state, head)->0;
        lemma_digit_is_counted(prior, spelling, start, spelling.whole.len() + count - 1, NumberLex::Fraction);
    }
}

/// The coefficient is counted.
proof fn lemma_mantissa_is_counted(state: NumberState, spelling: Spelling, start: int)
    requires
        spelling.is_json(),
        ready(state, spelling, start),
    ensures
        ({
            let at = spelling.mantissa().len() as int;
            let after = driven(state, spelling.text().take(at));
            &&& after matches Some(after)
            &&& underway(after, spelling, start, spelling.coefficient().len() as int, at)
            &&& after.lex == NumberLex::Zero || after.lex == NumberLex::Integer || after.lex == NumberLex::Fraction
            &&& after.exponent == 0 && !after.exponent_overflow && !after.exponent_negative
            &&& after.has_fraction_or_exponent == (spelling.fraction.len() > 0)
            &&& after.lex == NumberLex::Fraction <==> spelling.fraction.len() > 0
        }),
{
    lemma_parts_stand(spelling);
    if spelling.fraction.len() > 0 {
        lemma_fraction_is_counted(state, spelling, start, spelling.fraction.len() as int);
    } else {
        lemma_whole_is_counted(state, spelling, start, spelling.whole.len() as int);
    }
}

/// What the exponent's accumulator holds after `digits`.
spec fn accumulated(state: NumberState, digits: Seq<u8>) -> bool {
    if state.exponent_overflow {
        places(digits) > u128::MAX
    } else {
        state.exponent == places(digits)
    }
}

/// The exponent is gathered up to digit `count`.
proof fn lemma_exponent_is_gathered(state: NumberState, spelling: Spelling, start: int, count: int)
    requires
        spelling.is_json(),
        ready(state, spelling, start),
        spelling.marker is Some,
        0 <= count <= spelling.exponent.len(),
    ensures
        ({
            let at = spelling.exponent_at() + count;
            let after = driven(state, spelling.text().take(at));
            &&& after matches Some(after)
            &&& underway(after, spelling, start, spelling.coefficient().len() as int, at)
            &&& after.lex == if count > 0 {
                NumberLex::Exponent
            } else if spelling.sign is Some {
                NumberLex::ExponentSign
            } else {
                NumberLex::ExponentStart
            }
            &&& accumulated(after, spelling.exponent.take(count))
            &&& after.exponent_negative == (spelling.sign == Some(0x2du8))
            &&& after.has_fraction_or_exponent
        }),
    decreases count,
{
    let text = spelling.text();
    let at = spelling.exponent_at() + count;
    lemma_parts_stand(spelling);
    let head = text.take(at - 1);
    assert(text.take(at).drop_last() =~= head);
    assert(text.take(at).last() == text[at - 1]);
    if count == 0 {
        assert(spelling.exponent.take(0) =~= Seq::<u8>::empty());
        lemma_mantissa_is_counted(state, spelling, start);
        let end = spelling.mantissa().len() as int;
        let mantissa = driven(state, text.take(end))->0;
        let marked = moved_on(mantissa.taken(text[end], NumberLex::ExponentStart));
        assert(stepped(mantissa, text[end]) == Some(marked));
        assert(counts(marked, spelling, start, spelling.coefficient().len() as int));
        if spelling.sign is Some {
            assert(head.drop_last() =~= text.take(end));
            assert(head.last() == text[end]);
            assert(driven(state, head) == Some(marked));
            let signed = moved_on(marked.taken(text[end + 1], NumberLex::ExponentSign));
            assert(driven(state, text.take(at)) == Some(signed));
        } else {
            assert(head =~= text.take(end));
            assert(driven(state, text.take(at)) == Some(marked));
        }
    } else {
        lemma_exponent_is_gathered(state, spelling, start, count - 1);
        let prior = driven(state, head)->0;
        let after = moved_on(prior.taken(spelling.exponent[count - 1], NumberLex::Exponent));
        let digits = spelling.exponent.take(count - 1);
        assert(text[at - 1] == spelling.exponent[count - 1]);
        assert(0x30 <= spelling.exponent[count - 1] <= 0x39);
        assert(spelling.exponent.take(count) =~= digits.push(spelling.exponent[count - 1]));
        lemma_places_push(digits, spelling.exponent[count - 1]);
        assert(driven(state, text.take(at)) == Some(after));
        assert(counts(after, spelling, start, spelling.coefficient().len() as int));
        assert(accumulated(after, spelling.exponent.take(count)));
    }
}

/// The facts that the strict machine gathers over a number are the number's own, for every spelling that strict JSON has: it
/// takes the whole text and may end there, and what it counted are the spelling's digits, its point and its exponent.
pub proof fn lemma_machine_gathers_the_number(state: NumberState, spelling: Spelling, start: int)
    requires
        spelling.is_json(),
        ready(state, spelling, start),
    ensures
        ({
            let after = driven(state, spelling.text());
            &&& after matches Some(after)
            &&& counts(after, spelling, start, spelling.coefficient().len() as int)
            &&& after.start == start
            &&& after.cursor == start + spelling.text().len()
            &&& after.negative == spelling.negative
            &&& !after.lenient_spelling
            &&& after.has_fraction_or_exponent == (spelling.fraction.len() > 0 || spelling.marker is Some)
            &&& crate::number::complete(after.lex, false, false, after.digit_count as int)
            &&& after.exponent_overflow == (places(spelling.exponent) > u128::MAX)
            &&& !after.exponent_overflow ==> after.exponent == places(spelling.exponent)
            &&& after.exponent_negative == (spelling.sign == Some(0x2du8))
        }),
{
    let text = spelling.text();
    lemma_parts_stand(spelling);
    assert(text.take(text.len() as int) =~= text);
    if spelling.marker is Some {
        lemma_exponent_is_gathered(state, spelling, start, spelling.exponent.len() as int);
        assert(spelling.exponent.take(spelling.exponent.len() as int) =~= spelling.exponent);
    } else {
        lemma_mantissa_is_counted(state, spelling, start);
        assert(spelling.exponent =~= Seq::<u8>::empty());
    }
}

/// Zeroes stand for nothing.
proof fn lemma_zeroes_are_nothing(digits: Seq<u8>)
    requires
        forall|i: int| 0 <= i < digits.len() ==> #[trigger] digits[i] == 0x30,
    ensures
        places(digits) == 0,
    decreases digits.len(),
{
    if digits.len() > 0 {
        let rest = digits.skip(1);
        assert forall|i: int| 0 <= i < rest.len() implies #[trigger] rest[i] == 0x30 by {
            assert(rest[i] == digits[i + 1]);
        }
        lemma_zeroes_are_nothing(rest);
        let p = pow(10, (digits.len() - 1) as nat);
        assert(digits[0] == 0x30);
        assert(0 * p == 0) by (nonlinear_arith);
    }
}

/// Leading zeroes stand for nothing, and each trailing zero for a factor of ten.
proof fn lemma_places_between(digits: Seq<u8>, from: int, to: int)
    requires
        0 <= from <= to <= digits.len(),
        forall|i: int| 0 <= i < from ==> #[trigger] digits[i] == 0x30,
        forall|i: int| to <= i < digits.len() ==> #[trigger] digits[i] == 0x30,
    ensures
        places(digits) == places(digits.subrange(from, to)) * pow(10, (digits.len() - to) as nat),
{
    let lead = digits.take(from);
    let body = digits.subrange(from, to);
    let tail = digits.skip(to);
    assert forall|i: int| 0 <= i < tail.len() implies #[trigger] tail[i] == 0x30 by {
        assert(tail[i] == digits[to + i]);
    }
    lemma_zeroes_are_nothing(lead);
    lemma_zeroes_are_nothing(tail);
    assert(digits =~= lead + (body + tail));
    lemma_places_add(lead, body + tail);
    lemma_places_add(body, tail);
    let p = pow(10, (body + tail).len());
    assert(0 * p == 0) by (nonlinear_arith);
}

/// The coefficient digits from `from` to `to` stand in the source from the first of them to the last, but for the point.
proof fn lemma_range_holds_the_digits(before: Seq<u8>, spelling: Spelling, behind: Seq<u8>, from: int, to: int)
    requires
        spelling.is_json(),
        0 <= from < to <= spelling.coefficient().len(),
    ensures
        ({
            let source = before + spelling.text() + behind;
            let start = digit_at(spelling, before.len() as int, from);
            let end = digit_at(spelling, before.len() as int, to - 1) + 1;
            &&& 0 <= start < end <= before.len() + spelling.mantissa().len()
            &&& without_points(source.subrange(start, end)) == spelling.coefficient().subrange(from, to)
        }),
    decreases to - from,
{
    let source = before + spelling.text() + behind;
    let digits = spelling.coefficient();
    let text = spelling.text();
    let base = before.len() as int;
    let start = digit_at(spelling, base, from);
    let last = digit_at(spelling, base, to - 1);
    lemma_parts_stand(spelling);
    assert(source[last] == text[last - base]);
    assert(source[last] == digits[to - 1]);
    assert(0x30 <= digits[to - 1] <= 0x39) by {
        if to - 1 < spelling.whole.len() {
            assert(digits[to - 1] == spelling.whole[to - 1]);
        } else {
            assert(digits[to - 1] == spelling.fraction[to - 1 - spelling.whole.len()]);
        }
    }
    let range = source.subrange(start, last + 1);
    assert(range.last() == source[last]);
    if to - 1 > from {
        lemma_range_holds_the_digits(before, spelling, behind, from, to - 1);
        let prior = digit_at(spelling, base, to - 2);
        let shorter = source.subrange(start, prior + 1);
        if to - 1 == spelling.whole.len() {
            assert(last == prior + 2);
            assert(source[prior + 1] == text[prior + 1 - base]);
            assert(range.drop_last().last() == source[prior + 1]);
            assert(range.drop_last().drop_last() =~= shorter);
            assert(without_points(range.drop_last()) == without_points(shorter));
        } else {
            assert(last == prior + 1);
            assert(range.drop_last() =~= shorter);
        }
        assert(without_points(range.drop_last()) == digits.subrange(from, to - 1));
    } else {
        assert(range.drop_last() =~= Seq::<u8>::empty());
        assert(without_points(range.drop_last()) =~= digits.subrange(from, from));
    }
    assert(without_points(range) == without_points(range.drop_last()).push(digits[to - 1]));
    assert(digits.subrange(from, to - 1).push(digits[to - 1]) =~= digits.subrange(from, to));
}

/// The ranges that the plans name hold digits that stand for the number's.
proof fn lemma_ranges_name_the_digits(before: Seq<u8>, spelling: Spelling, behind: Seq<u8>, after: NumberState)
    requires
        spelling.is_json(),
        counts(after, spelling, before.len() as int, spelling.coefficient().len() as int),
    ensures
        ({
            let source = before + spelling.text() + behind;
            let base = before.len() as int;
            let value = places(spelling.coefficient());
            match (after.first_nonzero_offset, after.last_nonzero_offset, after.last_digit_offset) {
                (Some(first), Some(last), Some(end)) => {
                    let zeroes = spelling.coefficient().len() - 1 - after.last_nonzero->0;
                    &&& first <= last <= end < source.len()
                    &&& places(without_points(source.subrange(first as int, end + 1))) == value
                    &&& 0 <= zeroes
                    &&& value == places(without_points(source.subrange(first as int, last + 1))) * pow(
                        10,
                        zeroes as nat,
                    )
                },
                _ => value == 0,
            }
        }),
{
    let source = before + spelling.text() + behind;
    let base = before.len() as int;
    let digits = spelling.coefficient();
    let count = digits.len() as int;
    lemma_parts_stand(spelling);
    match after.first_nonzero {
        Some(first) => {
            let last = after.last_nonzero->0 as int;
            lemma_range_holds_the_digits(before, spelling, behind, first as int, count);
            lemma_range_holds_the_digits(before, spelling, behind, first as int, last + 1);
            lemma_places_between(digits, first as int, count);
            lemma_places_between(digits, first as int, last + 1);
            let rest = places(digits.subrange(first as int, count));
            let one = pow(10, 0);
            assert(one == 1) by {
                reveal(pow);
            }
            assert(rest * one == rest) by (nonlinear_arith)
                requires
                    one == 1,
            ;
        },
        None => {
            lemma_zeroes_are_nothing(digits);
        },
    }
}

/// A number without a point and an exponent is its digits.
proof fn lemma_whole_stands(before: Seq<u8>, spelling: Spelling, behind: Seq<u8>)
    requires
        spelling.is_json(),
        spelling.fraction.len() == 0,
    ensures
        ({
            let source = before + spelling.text() + behind;
            let start = before.len() + spelling.first();
            &&& start + spelling.whole.len() <= source.len()
            &&& source.subrange(start, start + spelling.whole.len()) == spelling.whole
            &&& spelling.coefficient() == spelling.whole
        }),
{
    let source = before + spelling.text() + behind;
    let start = before.len() + spelling.first();
    lemma_parts_stand(spelling);
    assert(spelling.coefficient() =~= spelling.whole);
    let whole = source.subrange(start, start + spelling.whole.len());
    assert forall|i: int| 0 <= i < whole.len() implies #[trigger] whole[i] == spelling.whole[i] by {
        assert(source[start + i] == spelling.text()[spelling.first() + i]);
    }
    assert(whole =~= spelling.whole);
}

/// Each plan of a number names the value that its spelling stands for, for every spelling that strict JSON has and wherever
/// it stands: the digits of the range that the plan names, read by their places and scaled down by its scale, are the
/// number's digits, scaled down by as many as stand behind the point and up by the exponent. There is no render plan
/// exactly where that scale is out of range.
#[verifier::spinoff_prover]
#[verifier::rlimit(40)]
pub proof fn lemma_plans_name_the_number(
    before: Seq<u8>,
    spelling: Spelling,
    behind: Seq<u8>,
    state: NumberState,
    lenient: bool,
)
    requires
        spelling.is_json(),
        ready(state, spelling, before.len() as int),
    ensures
        ({
            let source = before + spelling.text() + behind;
            let after = driven(state, spelling.text())->0;
            let value = places(spelling.coefficient());
            let scale = spelling.fraction.len() - spelling.power();
            &&& driven(state, spelling.text()) is Some
            &&& match render_plan(after) {
                Ok(Some((start, end, own))) => {
                    &&& start <= end <= source.len()
                    &&& own == scale
                    &&& places(without_points(source.subrange(start as int, end as int))) == value
                },
                Ok(None) => !(i64::MIN <= scale <= i64::MAX),
                Err(_) => false,
            }
            &&& match finish_plan(after, lenient) {
                Ok(Some((start, end, Some(own)))) => {
                    let zeroes = scale - own;
                    &&& spelling.fraction.len() > 0 || spelling.marker is Some
                    &&& start <= end <= source.len()
                    &&& 0 <= zeroes
                    &&& value == places(without_points(source.subrange(start as int, end as int))) * pow(
                        10,
                        zeroes as nat,
                    )
                },
                Ok(Some((start, end, None))) => {
                    &&& spelling.fraction.len() == 0 && spelling.marker is None
                    &&& start <= end <= source.len()
                    &&& places(source.subrange(start as int, end as int)) == value
                    &&& value != 0 ==> source.subrange(start as int, end as int) == spelling.whole
                },
                Ok(None) => spelling.fraction.len() > 0 || spelling.marker is Some,
                Err(_) => false,
            }
        }),
{
    let source = before + spelling.text() + behind;
    let base = before.len() as int;
    lemma_machine_gathers_the_number(state, spelling, base);
    lemma_places_are_no_less_than_none(spelling.exponent);
    lemma_parts_stand(spelling);
    let after = driven(state, spelling.text())->0;
    lemma_ranges_name_the_digits(before, spelling, behind, after);
    assert(source.subrange(0, 0) =~= Seq::<u8>::empty());
    let one = pow(10, 0);
    assert(one == 1) by {
        reveal(pow);
    }
    assert(0 * one == 0) by (nonlinear_arith);
    if spelling.fraction.len() == 0 {
        lemma_whole_stands(before, spelling, behind);
    }
}

/// The plans name exactly these digits of a number that is not zero: both start at its first digit that is not zero; the
/// render plan ends behind its last digit, so that it keeps every zero that was written behind, and the canonical plan of
/// a decimal ends behind its last digit that is not zero, with its scale less by as many as it leaves out. There is no
/// canonical plan exactly where that scale is out of range.
pub proof fn lemma_plans_name_these_digits(
    base: int,
    spelling: Spelling,
    state: NumberState,
    lenient: bool,
    first: int,
    zeroes: int,
)
    requires
        spelling.is_json(),
        0 <= base,
        ready(state, spelling, base),
        0 <= first && first + zeroes < spelling.coefficient().len() && 0 <= zeroes,
        spelling.coefficient()[first] != 0x30,
        forall|i: int| 0 <= i < first ==> #[trigger] spelling.coefficient()[i] == 0x30,
        spelling.coefficient()[spelling.coefficient().len() - 1 - zeroes] != 0x30,
        forall|i: int|
            spelling.coefficient().len() - zeroes <= i < spelling.coefficient().len()
                ==> #[trigger] spelling.coefficient()[i] == 0x30,
    ensures
        ({
            let after = driven(state, spelling.text())->0;
            let count = spelling.coefficient().len() as int;
            let scale = spelling.fraction.len() - spelling.power();
            let decimal = spelling.fraction.len() > 0 || spelling.marker is Some;
            &&& driven(state, spelling.text()) is Some
            &&& match render_plan(after) {
                Ok(Some((start, end, _))) => start == digit_at(spelling, base, first) && end == digit_at(
                    spelling,
                    base,
                    count - 1,
                ) + 1,
                _ => !(i64::MIN <= scale <= i64::MAX),
            }
            &&& decimal ==> match finish_plan(after, lenient) {
                Ok(Some((start, end, Some(own)))) => start == digit_at(spelling, base, first) && end == digit_at(
                    spelling,
                    base,
                    count - 1 - zeroes,
                ) + 1 && own == scale - zeroes,
                Ok(None) => !(i64::MIN <= scale - zeroes <= i64::MAX),
                _ => false,
            }
        }),
{
    lemma_machine_gathers_the_number(state, spelling, base);
    lemma_places_are_no_less_than_none(spelling.exponent);
    lemma_parts_stand(spelling);
    let after = driven(state, spelling.text())->0;
    let digits = spelling.coefficient();
    let count = digits.len() as int;
    assert(digits[first] != 0x30);
    assert(after.first_nonzero is Some && after.last_nonzero is Some);
    let own = after.first_nonzero->0 as int;
    let last = after.last_nonzero->0 as int;
    assert(own == first) by {
        if own < first {
            assert(digits[own] == 0x30);
        }
    }
    assert(last == count - 1 - zeroes) by {
        if last > count - 1 - zeroes {
            assert(digits[last] == 0x30);
        }
    }
    assert(count < u32::MAX);
}

/// A number that is zero has plans that name no digit, at the scale that it was written with.
pub proof fn lemma_zero_keeps_its_scale(base: int, spelling: Spelling, state: NumberState, lenient: bool)
    requires
        spelling.is_json(),
        0 <= base,
        ready(state, spelling, base),
        forall|i: int| 0 <= i < spelling.coefficient().len() ==> #[trigger] spelling.coefficient()[i] == 0x30,
    ensures
        ({
            let after = driven(state, spelling.text())->0;
            let scale = spelling.fraction.len() - spelling.power();
            let decimal = spelling.fraction.len() > 0 || spelling.marker is Some;
            let fits = i64::MIN <= scale <= i64::MAX;
            &&& driven(state, spelling.text()) is Some
            &&& match render_plan(after) {
                Ok(Some((start, end, own))) => start == end && own == scale,
                Ok(None) => !fits,
                Err(_) => false,
            }
            &&& match finish_plan(after, lenient) {
                Ok(Some((start, end, Some(own)))) => decimal && start == end && own == scale,
                Ok(Some((start, end, None))) => !decimal && start == end,
                Ok(None) => decimal && !fits,
                Err(_) => false,
            }
        }),
{
    lemma_machine_gathers_the_number(state, spelling, base);
    lemma_places_are_no_less_than_none(spelling.exponent);
    lemma_parts_stand(spelling);
    let after = driven(state, spelling.text())->0;
    assert(after.first_nonzero is None);
}

/// The tested member of a number and the number machine agree on it: where the machine has a render plan for the same bytes
/// and the member is read at all, they have the same sign and the same scale, and digits that stand for the same number.
pub proof fn lemma_tested_number_agrees_with_the_machine(
    before: Seq<u8>,
    spelling: Spelling,
    behind: Seq<u8>,
    state: NumberState,
)
    requires
        spelling.is_json(),
        ready(state, spelling, before.len() as int),
        behind.len() > 0 ==> StopSet::Delimiter.stops(behind[0]),
        places(spelling.exponent) <= 1_000_000_000_000,
    ensures
        ({
            let source = before + spelling.text() + behind;
            let after = driven(state, spelling.text())->0;
            &&& member_at(source, before.len() as int) matches Some(MemberView::Decimal { negative, digits, scale })
            &&& negative == after.negative
            &&& render_plan(after) matches Ok(Some((start, end, render_scale)))
            &&& scale == render_scale
            &&& places(Seq::new(digits.len(), |i: int| digits[i] as u8)) == places(
                without_points(source.subrange(start as int, end as int)),
            )
        }),
{
    let source = before + spelling.text() + behind;
    lemma_parts_stand(spelling);
    lemma_places_are_no_less_than_none(spelling.exponent);
    lemma_plans_name_the_number(before, spelling, behind, state, false);
    lemma_machine_gathers_the_number(state, spelling, before.len() as int);
    let scale = spelling.fraction.len() - spelling.power();
    let high: nat = if scale > spelling.fraction.len() {
        scale as nat
    } else {
        spelling.fraction.len()
    };
    lemma_tested_number_is_what_is_spelled(before, spelling, behind, high);
    let member = member_at(source, before.len() as int)->0;
    if let MemberView::Decimal { digits, .. } = member {
        let bytes = Seq::new(digits.len(), |i: int| digits[i] as u8);
        assert(bytes =~= spelling.coefficient()) by {
            assert forall|i: int| 0 <= i < bytes.len() implies #[trigger] bytes[i] == spelling.coefficient()[i] by {
                assert(digits[i] == spelling.coefficient()[i] as char);
            }
        }
    }
}

} // verus!
