//! What a number's spelling stands for: the value its digits, its point and its exponent spell is the value that the tested
//! member and the number machine's plans name.

use vstd::arithmetic::power::pow;
use vstd::prelude::*;

use crate::byte_scan::StopSet;
use crate::count_filter::{digits_before, member_at, MemberView};
use crate::lazy::{coefficient_end, fraction_len, literal_end, literal_exponent, literal_parts, magnitude_start};
use crate::number::{digit_run_end, is_digit};
use crate::number_laws::digits_number;

verus! {

/// Whether every byte is one of `0` to `9`.
pub open spec fn decimal_digits(bytes: Seq<u8>) -> bool {
    forall|i: int| 0 <= i < bytes.len() ==> 0x30 <= #[trigger] bytes[i] <= 0x39
}

/// What a run of digits stands for, by their places: each digit times ten to how many stand behind it.
pub open spec fn places(digits: Seq<u8>) -> int
    decreases digits.len(),
{
    if digits.len() == 0 {
        0
    } else {
        (digits[0] - 0x30) * pow(10, (digits.len() - 1) as nat) + places(digits.skip(1))
    }
}

/// How a number is written: its sign, the digits before its point, those behind it, and its exponent.
pub struct Spelling {
    pub negative: bool,
    pub whole: Seq<u8>,
    /// The digits behind the point; none where there is no point.
    pub fraction: Seq<u8>,
    /// The exponent's marker, where it has one.
    pub marker: Option<u8>,
    /// The exponent's sign, where it has one.
    pub sign: Option<u8>,
    pub exponent: Seq<u8>,
}

impl Spelling {
    /// Whether strict JSON has this spelling.
    pub open spec fn is_json(self) -> bool {
        &&& self.whole.len() > 0
        &&& decimal_digits(self.whole)
        &&& self.whole[0] == 0x30 ==> self.whole.len() == 1
        &&& decimal_digits(self.fraction)
        &&& decimal_digits(self.exponent)
        &&& match self.marker {
            Some(marker) => {
                &&& marker == 0x65 || marker == 0x45
                &&& self.exponent.len() > 0
                &&& self.sign matches Some(sign) ==> sign == 0x2b || sign == 0x2d
            },
            None => self.sign is None && self.exponent.len() == 0,
        }
    }

    /// The bytes up to the coefficient's end.
    #[verifier::opaque]
    pub open spec fn mantissa(self) -> Seq<u8> {
        let lead: Seq<u8> = if self.negative {
            seq![0x2d]
        } else {
            seq![]
        };
        let point: Seq<u8> = if self.fraction.len() > 0 {
            seq![0x2e]
        } else {
            seq![]
        };
        lead + self.whole + point + self.fraction
    }

    /// The bytes of the exponent.
    #[verifier::opaque]
    pub open spec fn scaling(self) -> Seq<u8> {
        let marker: Seq<u8> = match self.marker {
            Some(marker) => seq![marker],
            None => seq![],
        };
        let sign: Seq<u8> = match self.sign {
            Some(sign) => seq![sign],
            None => seq![],
        };
        marker + sign + self.exponent
    }

    /// The number's bytes.
    pub open spec fn text(self) -> Seq<u8> {
        self.mantissa() + self.scaling()
    }

    /// The digits of the number, its point left out.
    pub open spec fn coefficient(self) -> Seq<u8> {
        self.whole + self.fraction
    }

    /// Where the digits start: past the sign.
    pub open spec fn first(self) -> int {
        if self.negative {
            1
        } else {
            0
        }
    }

    /// Where the digits behind the point start, or would.
    pub open spec fn behind_point(self) -> int {
        self.first() + self.whole.len() + if self.fraction.len() > 0 {
            1int
        } else {
            0
        }
    }

    /// Where the exponent's digits start.
    pub open spec fn exponent_at(self) -> int {
        self.mantissa().len() + 1 + if self.sign is Some {
            1int
        } else {
            0
        }
    }

    /// The power of ten that the exponent multiplies by.
    pub open spec fn power(self) -> int {
        if self.sign == Some(0x2du8) {
            -places(self.exponent)
        } else {
            places(self.exponent)
        }
    }
}

/// One digit more makes ten of what there was, and adds itself.
pub proof fn lemma_places_push(digits: Seq<u8>, digit: u8)
    ensures
        places(digits.push(digit)) == places(digits) * 10 + (digit - 0x30),
    decreases digits.len(),
{
    let more = digits.push(digit);
    if digits.len() == 0 {
        assert(more.skip(1) =~= Seq::<u8>::empty());
        let p = pow(10, (more.len() - 1) as nat);
        assert(p == 1) by {
            reveal(pow);
        }
        let d = digit - 0x30;
        assert(d * p == d) by (nonlinear_arith)
            requires
                p == 1,
        ;
        assert(more[0] == digit);
        assert(places(more.skip(1)) == 0);
    } else {
        let rest = digits.skip(1);
        lemma_places_push(rest, digit);
        assert(more.skip(1) =~= rest.push(digit));
        assert(more[0] == digits[0]);
        let n = (digits.len() - 1) as nat;
        let p = pow(10, n);
        assert(pow(10, n + 1) == 10 * p) by {
            reveal(pow);
        }
        let d = digits[0] - 0x30;
        let r = places(rest);
        assert(places(more) == d * pow(10, n + 1) + places(rest.push(digit)));
        assert(places(digits) == d * p + r);
        assert(d * (10 * p) + r * 10 == (d * p + r) * 10) by (nonlinear_arith);
    }
}

/// Digits in a row stand for the first ones, moved up by as many places as the others take, and the others.
pub proof fn lemma_places_add(left: Seq<u8>, right: Seq<u8>)
    ensures
        places(left + right) == places(left) * pow(10, right.len()) + places(right),
    decreases left.len(),
{
    let whole = left + right;
    if left.len() == 0 {
        assert(whole =~= right);
    } else {
        let rest = left.skip(1);
        lemma_places_add(rest, right);
        assert(whole.skip(1) =~= rest + right);
        assert(whole[0] == left[0]);
        let n = (left.len() - 1) as nat;
        vstd::arithmetic::power::lemma_pow_adds(10, n, right.len());
        let d = left[0] - 0x30;
        let p = pow(10, n);
        let q = pow(10, right.len());
        let r = places(rest);
        assert(d * (p * q) + r * q == (d * p + r) * q) by (nonlinear_arith);
    }
}

/// A run of digits is read as what it stands for.
pub proof fn lemma_digits_are_read_by_their_places(digits: Seq<u8>)
    requires
        decimal_digits(digits),
    ensures
        digits_number(digits) == places(digits),
    decreases digits.len(),
{
    if digits.len() > 0 {
        let head = digits.drop_last();
        assert forall|i: int| 0 <= i < head.len() implies 0x30 <= #[trigger] head[i] <= 0x39 by {
            assert(head[i] == digits[i]);
        }
        lemma_digits_are_read_by_their_places(head);
        lemma_places_push(head, digits.last());
        assert(head.push(digits.last()) =~= digits);
    }
}

proof fn lemma_digit_run_is(bytes: Seq<u8>, from: int, to: int)
    requires
        0 <= from <= to <= bytes.len(),
        forall|i: int| from <= i < to ==> is_digit(#[trigger] bytes[i]),
        to == bytes.len() || !is_digit(bytes[to]),
    ensures
        digit_run_end(bytes, from) == to,
    decreases to - from,
{
    if from < to {
        assert(is_digit(bytes[from]));
        lemma_digit_run_is(bytes, from + 1, to);
    }
}

/// Where the parts of a number stand in its text.
pub proof fn lemma_parts_stand(spelling: Spelling)
    requires
        spelling.is_json(),
    ensures
        ({
            let text = spelling.text();
            let end = spelling.mantissa().len() as int;
            &&& end == spelling.behind_point() + spelling.fraction.len()
            &&& end <= text.len()
            &&& spelling.negative ==> text[0] == 0x2d
            &&& forall|i: int|
                spelling.first() <= i < spelling.first() + spelling.whole.len() ==> #[trigger] text[i]
                    == spelling.whole[i - spelling.first()]
            &&& forall|i: int|
                spelling.behind_point() <= i < end ==> #[trigger] text[i] == spelling.fraction[i
                    - spelling.behind_point()]
            &&& spelling.fraction.len() > 0 ==> text[spelling.first() + spelling.whole.len()] == 0x2e
            &&& match spelling.marker {
                Some(marker) => {
                    &&& text.len() == spelling.exponent_at() + spelling.exponent.len()
                    &&& text[end] == marker
                    &&& spelling.sign matches Some(byte) ==> text[end + 1] == byte
                    &&& forall|i: int|
                        spelling.exponent_at() <= i < text.len() ==> #[trigger] text[i] == spelling.exponent[i
                            - spelling.exponent_at()]
                },
                None => text.len() == end,
            }
        }),
{
    let text = spelling.text();
    let end = spelling.mantissa().len() as int;
    let tail = spelling.scaling();
    reveal(Spelling::mantissa);
    reveal(Spelling::scaling);
    assert forall|i: int| 0 <= i < end implies #[trigger] text[i] == spelling.mantissa()[i] by {}
    assert forall|i: int| end <= i < text.len() implies #[trigger] text[i] == tail[i - end] by {}
}

/// The parts that a literal is read as are its own.
proof fn lemma_literal_parts(spelling: Spelling)
    requires
        spelling.is_json(),
    ensures
        ({
            let text = spelling.text();
            &&& coefficient_end(text) == spelling.mantissa().len()
            &&& fraction_len(text) == spelling.fraction.len()
            &&& literal_end(text) == text.len()
            &&& magnitude_start(text) == 1 <==> spelling.negative
            &&& literal_exponent(text) == if places(spelling.exponent) > 1_000_000_000_000 {
                None::<int>
            } else {
                Some(spelling.power())
            }
        }),
{
    let text = spelling.text();
    lemma_parts_stand(spelling);
    let first = spelling.first();
    assert(text[first] == spelling.whole[0]);
    let whole = first + spelling.whole.len();
    assert forall|i: int| first <= i < whole implies is_digit(#[trigger] text[i]) by {
        assert(text[i] == spelling.whole[i - first]);
    }
    lemma_digit_run_is(text, first, whole);
    let end = spelling.mantissa().len() as int;
    if spelling.fraction.len() > 0 {
        assert forall|i: int| whole + 1 <= i < end implies is_digit(#[trigger] text[i]) by {
            assert(text[i] == spelling.fraction[i - whole - 1]);
        }
        lemma_digit_run_is(text, whole + 1, end);
    }
    if spelling.marker is Some {
        let start = spelling.exponent_at();
        assert forall|i: int| start <= i < text.len() implies is_digit(#[trigger] text[i]) by {
            assert(text[i] == spelling.exponent[i - start]);
        }
        assert(text[start] == spelling.exponent[0]);
        lemma_digit_run_is(text, start, text.len() as int);
        assert(text.subrange(start, text.len() as int) =~= spelling.exponent);
        lemma_digits_are_read_by_their_places(spelling.exponent);
    } else {
        assert(spelling.exponent =~= Seq::<u8>::empty());
    }
}

/// The digits of a literal's coefficient are the digits before its point and those behind it.
proof fn lemma_coefficient_is_read(spelling: Spelling, upto: int)
    requires
        spelling.is_json(),
        0 <= upto <= spelling.mantissa().len(),
    ensures
        ({
            let first = spelling.first();
            let whole = first + spelling.whole.len();
            let count = if upto <= first {
                0
            } else if upto <= whole {
                upto - first
            } else {
                upto - first - 1
            };
            &&& digits_before(spelling.text(), upto).len() == count
            &&& count <= spelling.coefficient().len()
            &&& forall|i: int|
                0 <= i < count ==> #[trigger] digits_before(spelling.text(), upto)[i] == spelling.coefficient()[i] as char
        }),
    decreases upto,
{
    lemma_parts_stand(spelling);
    let text = spelling.text();
    let first = spelling.first();
    let whole = first + spelling.whole.len();
    if upto > 0 {
        lemma_coefficient_is_read(spelling, upto - 1);
        let at = upto - 1;
        if first <= at < whole {
            assert(text[at] == spelling.whole[at - first]);
            assert(spelling.coefficient()[at - first] == spelling.whole[at - first]);
        } else if at > whole {
            assert(text[at] == spelling.fraction[at - whole - 1]);
            assert(spelling.coefficient()[at - first - 1] == spelling.fraction[at - whole - 1]);
        }
    }
}

/// The tested member of a number literal is the number it spells, for every spelling that strict JSON has and wherever it
/// stands: the sign is its own, the digits are those before its point and those behind it, the scale is how many stand
/// behind the point less the exponent, and so digits and scale together name the value. A literal whose exponent is too
/// large to carry declines.
pub proof fn lemma_tested_number_is_what_is_spelled(before: Seq<u8>, spelling: Spelling, behind: Seq<u8>, high: nat)
    requires
        spelling.is_json(),
        behind.len() > 0 ==> ({
            let next = behind[0];
            next == 0x2c || next == 0x5d || next == 0x7d || next == 0x20 || next == 0x09 || next == 0x0a || next == 0x0d
        }),
        spelling.fraction.len() <= i64::MAX - 1_000_000_000_000,
        high >= spelling.fraction.len() - spelling.power(),
        high >= spelling.fraction.len(),
    ensures
        ({
            let member = member_at(before + spelling.text() + behind, before.len() as int);
            let coefficient = spelling.coefficient();
            let scale = spelling.fraction.len() - spelling.power();
            if places(spelling.exponent) > 1_000_000_000_000 {
                member is None
            } else {
                &&& member matches Some(MemberView::Decimal { negative, digits, scale: read })
                &&& negative == spelling.negative
                &&& digits.len() == coefficient.len()
                &&& forall|i: int| 0 <= i < digits.len() ==> #[trigger] digits[i] == coefficient[i] as char
                &&& read == scale
                // The value, made whole by a power of ten that is high enough for both sides.
                &&& places(coefficient) * pow(10, (high - read) as nat) == (places(spelling.whole) * pow(
                    10,
                    spelling.fraction.len(),
                ) + places(spelling.fraction)) * pow(10, (high - spelling.fraction.len() + spelling.power()) as nat)
            }
        }),
{
    lemma_parts_stand(spelling);
    lemma_member_of_a_number(before, spelling, behind);
    lemma_literal_parts(spelling);
    lemma_coefficient_is_read(spelling, spelling.mantissa().len() as int);
    lemma_places_add(spelling.whole, spelling.fraction);
    lemma_places_are_no_less_than_none(spelling.exponent);
}

/// The member at a number is read off the number's own text.
proof fn lemma_member_of_a_number(before: Seq<u8>, spelling: Spelling, behind: Seq<u8>)
    requires
        spelling.is_json(),
        behind.len() > 0 ==> StopSet::Delimiter.stops(behind[0]),
    ensures
        member_at(before + spelling.text() + behind, before.len() as int) == match literal_parts(spelling.text()) {
            Some((negative, scale)) => Some(
                MemberView::Decimal {
                    negative,
                    digits: digits_before(spelling.text(), coefficient_end(spelling.text())),
                    scale,
                },
            ),
            None => None,
        },
{
    let text = spelling.text();
    let whole = before + text + behind;
    let at = before.len() as int;
    let end = at + text.len();
    lemma_parts_stand(spelling);
    lemma_text_holds_no_delimiter(spelling);
    assert forall|i: int| at <= i < end implies !StopSet::Delimiter.stops(#[trigger] whole[i]) by {
        assert(whole[i] == text[i - at]);
    }
    if behind.len() > 0 {
        assert(whole[end] == behind[0]);
    }
    crate::byte_scan::lemma_run_end_is(whole, at, StopSet::Delimiter, end);
    assert(whole.subrange(at, end) =~= text);
    assert(text[0] == 0x2d || is_digit(text[0])) by {
        if !spelling.negative {
            assert(text[0] == spelling.whole[0]);
        }
    }
    assert(whole[at] == text[0]);
}

/// Digits never stand for less than nothing.
pub proof fn lemma_places_are_no_less_than_none(digits: Seq<u8>)
    requires
        decimal_digits(digits),
    ensures
        places(digits) >= 0,
{
    lemma_digits_are_read_by_their_places(digits);
}

/// A number's text holds nothing that ends it.
proof fn lemma_text_holds_no_delimiter(spelling: Spelling)
    requires
        spelling.is_json(),
    ensures
        forall|i: int| 0 <= i < spelling.text().len() ==> !StopSet::Delimiter.stops(#[trigger] spelling.text()[i]),
{
    let text = spelling.text();
    lemma_parts_stand(spelling);
    let first = spelling.first();
    let whole = first + spelling.whole.len();
    let end = spelling.mantissa().len() as int;
    assert forall|i: int| 0 <= i < text.len() implies !StopSet::Delimiter.stops(#[trigger] text[i]) by {
        if first <= i < whole {
            assert(text[i] == spelling.whole[i - first]);
        } else if whole < i < end {
            assert(text[i] == spelling.fraction[i - whole - 1]);
        } else if i > end {
            let start = spelling.exponent_at();
            if i >= start {
                assert(text[i] == spelling.exponent[i - start]);
            }
        }
    }
}

} // verus!
