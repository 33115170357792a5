//! What the lexical rules come to on the bytes themselves: where a run stops, which words name a number that is not
//! finite, what digits count for, and what may stand behind a value.

use vstd::arithmetic::power::{lemma_pow0, lemma_pow_adds, lemma_pow1, pow};
use vstd::prelude::*;

use crate::byte_scan::{continuations, lemma_run_end_is, run_end, StopSet};
use crate::edit_style_laws::white;
use crate::escape_laws::{is_nibble, nibble, quad};
use crate::lex::{
    decimal_number, delimiter, fnv1a, hex_number, hex_value, high_surrogate, low_surrogate, nonfinite_prefix,
    proper_start, shifted_in, single_quoted_content, unicode_hex, value_boundary, verbatim_end,
};
use crate::number::digit_run_end;

verus! {

/// The bytes that end a run, for each set by its own list.
pub open spec fn ends_run(set: StopSet, byte: u8) -> bool {
    match set {
        StopSet::Escape => byte < 0x20 || byte == 0x22 || byte == 0x5c || byte == 0x7f,
        StopSet::PlainString => byte < 0x20 || byte == 0x22 || byte == 0x5c || byte >= 0x7f,
        StopSet::StringContent => byte < 0x20 || byte == 0x22 || byte == 0x5c || byte == 0x7f,
        StopSet::Structure => byte == 0x22 || byte == 0x5b || byte == 0x5d || byte == 0x7b || byte == 0x7d,
        StopSet::Delimiter => white(byte) || byte == 0x2c || byte == 0x5d || byte == 0x7d,
        StopSet::Ws => !white(byte),
        StopSet::Rs => byte == 0x1e,
        StopSet::NdjsonFrame => byte == 0x0a || byte == 0x0d,
    }
}

/// A run stops at the first byte of its set, and at no other.
pub proof fn lemma_runs_stop_at_the_first_of_their_set(bytes: Seq<u8>, from: int, at: int, set: StopSet)
    requires
        0 <= from <= at <= bytes.len(),
        forall|i: int| from <= i < at ==> !ends_run(set, #[trigger] bytes[i]),
        at == bytes.len() || ends_run(set, bytes[at]),
    ensures
        run_end(bytes, from, set) == at,
{
    assert forall|i: int| from <= i < at implies !set.stops(#[trigger] bytes[i]) by {
        assert(!ends_run(set, bytes[i]));
    }
    lemma_run_end_is(bytes, from, set, at);
}

/// A bare word ends in front of whitespace, a comma or a closing delimiter, and it may also end in front of what opens a
/// string or a container; in front of nothing else.
pub proof fn lemma_boundaries_are_these_bytes(byte: u8)
    ensures
        delimiter(byte) <==> byte == 0x20 || byte == 0x09 || byte == 0x0a || byte == 0x0d || byte == 0x2c || byte == 0x5d
            || byte == 0x7d,
        value_boundary(byte) <==> byte == 0x20 || byte == 0x09 || byte == 0x0a || byte == 0x0d || byte == 0x2c || byte
            == 0x5d || byte == 0x7d || byte == 0x22 || byte == 0x5b || byte == 0x7b,
        single_quoted_content(byte) <==> byte >= 0x20 && byte != 0x27 && byte != 0x5c,
        continuations(byte) == if byte < 0xc2 || byte > 0xf4 {
            None::<usize>
        } else if byte < 0xe0 {
            Some(1)
        } else if byte < 0xf0 {
            Some(2)
        } else {
            Some(3)
        },
{
}

/// The code units of a surrogate pair: the first half of their range leads, the second half trails.
pub proof fn lemma_surrogates_are_these_units(unit: u16)
    ensures
        high_surrogate(unit) <==> unit / 0x400 == 54,
        low_surrogate(unit) <==> unit / 0x400 == 55,
{
}

/// Whether the letters of `word` stand at `at`, each in either case.
pub open spec fn letters_at(bytes: Seq<u8>, at: int, word: Seq<u8>) -> bool {
    &&& 0 <= at && at + word.len() <= bytes.len()
    &&& forall|i: int| 0 <= i < word.len() ==> bytes[at + i] == #[trigger] word[i] || bytes[at + i] + 0x20 == word[i]
}

proof fn lemma_word_is_its_letters(bytes: Seq<u8>, at: int, word: Seq<u8>)
    requires
        forall|i: int| 0 <= i < word.len() ==> 0x61 <= #[trigger] word[i] <= 0x7a,
    ensures
        crate::lex::word_at(bytes, at, word) == letters_at(bytes, at, word),
{
    if 0 <= at && at + word.len() <= bytes.len() {
        let part = bytes.subrange(at, at + word.len());
        if letters_at(bytes, at, word) {
            assert forall|i: int| 0 <= i < word.len() implies crate::lex::lowered(#[trigger] part[i]) == word[i] by {
                assert(0x61 <= word[i] <= 0x7a);
            }
        }
        if crate::lex::word_at(bytes, at, word) {
            assert forall|i: int| 0 <= i < word.len() implies bytes[at + i] == #[trigger] word[i] || bytes[at + i] + 0x20
                == word[i] by {
                assert(crate::lex::lowered(part[i]) == word[i]);
            }
        }
    }
}

/// A number that is not finite is spelled `infinity`, `inf`, `nan` or `snan`, in any case, and nothing else; the longest
/// spelling that stands there counts.
pub proof fn lemma_nonfinite_spellings_are_these_words(bytes: Seq<u8>, at: int)
    ensures
        ({
            let infinity = letters_at(bytes, at, seq![0x69u8, 0x6e, 0x66, 0x69, 0x6e, 0x69, 0x74, 0x79]);
            let inf = letters_at(bytes, at, seq![0x69u8, 0x6e, 0x66]);
            let nan = letters_at(bytes, at, seq![0x6eu8, 0x61, 0x6e]);
            let snan = letters_at(bytes, at, seq![0x73u8, 0x6e, 0x61, 0x6e]);
            let found = nonfinite_prefix(bytes, at);
            &&& found is Some <==> inf || nan || snan
            &&& infinity ==> found == Some(8usize)
            &&& snan ==> found == Some(4usize)
            &&& nan ==> found == Some(3usize)
            &&& inf && !infinity ==> found == Some(3usize)
        }),
{
    let infinity = seq![0x69u8, 0x6e, 0x66, 0x69, 0x6e, 0x69, 0x74, 0x79];
    let inf = seq![0x69u8, 0x6e, 0x66];
    let nan = seq![0x6eu8, 0x61, 0x6e];
    let snan = seq![0x73u8, 0x6e, 0x61, 0x6e];
    assert(crate::lex::infinity_word() =~= infinity);
    assert(crate::lex::inf_word() =~= inf);
    assert(crate::lex::nan_word() =~= nan);
    assert(crate::lex::snan_word() =~= snan);
    lemma_word_is_its_letters(bytes, at, infinity);
    lemma_word_is_its_letters(bytes, at, inf);
    lemma_word_is_its_letters(bytes, at, nan);
    lemma_word_is_its_letters(bytes, at, snan);
    if letters_at(bytes, at, infinity) {
        assert forall|i: int| 0 <= i < inf.len() implies bytes[at + i] == #[trigger] inf[i] || bytes[at + i] + 0x20
            == inf[i] by {
            assert(inf[i] == infinity[i]);
        }
        assert(inf[0] == 0x69);
    }
    if letters_at(bytes, at, inf) {
        assert(inf[0] == 0x69);
    }
    if letters_at(bytes, at, nan) {
        assert(nan[0] == 0x6e);
    }
    if letters_at(bytes, at, snan) {
        assert(snan[0] == 0x73);
    }
}

/// The fingerprint of no bytes is FNV's offset basis, and each further byte is mixed in and multiplied by FNV's prime,
/// modulo two to the sixty-fourth.
pub proof fn lemma_fingerprint_mixes_in_each_byte(bytes: Seq<u8>, byte: u8)
    ensures
        fnv1a(seq![]) == 14695981039346656037u64,
        fnv1a(bytes.push(byte)) == ((fnv1a(bytes) ^ (byte as u64)) * 1099511628211) % 18446744073709551616,
{
    assert(bytes.push(byte).drop_last() =~= bytes);
}

/// A hexadecimal digit counts for its place among the sixteen, in either case, and no other byte is one.
pub proof fn lemma_hex_digits_count_for_their_place(byte: u8)
    ensures
        hex_value(byte) is Some <==> is_nibble(byte),
        hex_value(byte) matches Some(value) ==> value == nibble(byte),
{
}

/// The digits of a hexadecimal number count by their places: what stands in front counts sixteen times for every digit
/// behind it. A digit alone counts for itself, and none for nothing.
pub proof fn lemma_hex_digits_count_by_their_places(front: Seq<u8>, back: Seq<u8>, digit: u8)
    requires
        is_nibble(digit),
    ensures
        hex_number(seq![]) == 0,
        hex_number(seq![digit]) == nibble(digit),
        hex_number(front + back) == hex_number(front) * pow(16, back.len()) + hex_number(back),
    decreases back.len(),
{
    assert(seq![digit].drop_last() =~= seq![]);
    let whole = front + back;
    if back.len() == 0 {
        lemma_pow0(16);
        assert(whole =~= front);
        assert(hex_number(front) * 1 == hex_number(front)) by (nonlinear_arith);
    } else {
        let early = back.drop_last();
        lemma_hex_digits_count_by_their_places(front, early, digit);
        assert(whole.drop_last() =~= front + early);
        assert(whole.last() == back.last());
        lemma_pow_adds(16, early.len(), 1);
        lemma_pow1(16);
        let lead = hex_number(front) as int;
        let power = pow(16, early.len());
        assert((lead * power) * 16 == lead * (power * 16)) by (nonlinear_arith);
    }
}

/// The digits of a decimal number count by their places: what stands in front counts ten times for every digit behind it.
/// A digit alone counts for itself, and none for nothing.
pub proof fn lemma_decimal_digits_count_by_their_places(front: Seq<char>, back: Seq<char>, digit: char)
    requires
        '0' <= digit <= '9',
        forall|i: int| 0 <= i < front.len() ==> '0' <= #[trigger] front[i] <= '9',
        forall|i: int| 0 <= i < back.len() ==> '0' <= #[trigger] back[i] <= '9',
    ensures
        decimal_number(seq![]) == 0,
        decimal_number(seq![digit]) == digit as int - 0x30,
        decimal_number(front + back) == decimal_number(front) * pow(10, back.len()) + decimal_number(back),
    decreases back.len(),
{
    assert(seq![digit].drop_last() =~= seq![]);
    let whole = front + back;
    if back.len() == 0 {
        lemma_pow0(10);
        assert(whole =~= front);
        assert(decimal_number(front) * 1 == decimal_number(front)) by (nonlinear_arith);
    } else {
        let early = back.drop_last();
        assert forall|i: int| 0 <= i < early.len() implies '0' <= #[trigger] early[i] <= '9' by {
            assert(early[i] == back[i]);
        }
        lemma_decimal_digits_count_by_their_places(front, early, digit);
        assert(whole.drop_last() =~= front + early);
        assert(whole.last() == back.last());
        assert('0' <= back[back.len() - 1] <= '9');
        lemma_pow_adds(10, early.len(), 1);
        lemma_pow1(10);
        let lead = decimal_number(front) as int;
        let power = pow(10, early.len());
        assert((lead * power) * 10 == lead * (power * 10)) by (nonlinear_arith);
    }
}

/// The four digits of a `\u` escape spell one code unit, the first digit the heaviest, wherever the bytes at hand end
/// between them: what was read before the cut, taken up behind it, comes to the same. A byte among them that is no
/// hexadecimal digit is named.
pub proof fn lemma_code_unit_is_its_four_digits(bytes: Seq<u8>, at: int, cut: int, limit: int)
    requires
        0 <= at <= cut <= limit <= bytes.len(),
        at + 4 <= limit,
        cut <= at + 4,
        forall|i: int| at <= i < at + 4 ==> is_nibble(#[trigger] bytes[i]),
    ensures
        unicode_hex(bytes, at, limit, 0, 0) matches Ok((value, digits, end)) && digits == 4 && end == at + 4 && value
            == quad(bytes[at], bytes[at + 1], bytes[at + 2], bytes[at + 3]),
        unicode_hex(bytes, at, cut, 0, 0) matches Ok((value, digits, end)) && digits == cut - at && end == cut
            && unicode_hex(bytes, cut, limit, value, digits) == unicode_hex(bytes, at, limit, 0, 0),
{
    lemma_code_unit_resumes(bytes, at, cut, limit, 0, 0);
    lemma_two_digits_shift_in(bytes, at, limit, 0, 0);
    let half = nibble(bytes[at]) * 16 + nibble(bytes[at + 1]);
    lemma_two_digits_shift_in(bytes, at + 2, limit, half as u16, 2);
}

proof fn lemma_digit_shifts_in(bytes: Seq<u8>, at: int, limit: int, value: u16, digits: u8)
    requires
        0 <= at < limit <= bytes.len(),
        digits < 4,
        value < 0x1000,
        is_nibble(bytes[at]),
    ensures
        0 <= nibble(bytes[at]) < 16,
        unicode_hex(bytes, at, limit, value, digits) == unicode_hex(
            bytes,
            at + 1,
            limit,
            (value * 16 + nibble(bytes[at])) as u16,
            (digits + 1) as u8,
        ),
{
    assert(shifted_in(value, hex_value(bytes[at])->0) == value * 16 + nibble(bytes[at]));
}

proof fn lemma_two_digits_shift_in(bytes: Seq<u8>, at: int, limit: int, value: u16, digits: u8)
    requires
        0 <= at && at + 2 <= limit <= bytes.len(),
        digits <= 2,
        value < 0x100,
        is_nibble(bytes[at]) && is_nibble(bytes[at + 1]),
    ensures
        0 <= nibble(bytes[at]) < 16 && 0 <= nibble(bytes[at + 1]) < 16,
        unicode_hex(bytes, at, limit, value, digits) == unicode_hex(
            bytes,
            at + 2,
            limit,
            (value * 256 + nibble(bytes[at]) * 16 + nibble(bytes[at + 1])) as u16,
            (digits + 2) as u8,
        ),
{
    lemma_digit_shifts_in(bytes, at, limit, value, digits);
    lemma_digit_shifts_in(bytes, at + 1, limit, (value * 16 + nibble(bytes[at])) as u16, (digits + 1) as u8);
}

proof fn lemma_code_unit_resumes(bytes: Seq<u8>, at: int, cut: int, limit: int, value: u16, digits: u8)
    requires
        0 <= at <= cut <= limit <= bytes.len(),
        digits + (cut - at) <= 4,
        forall|i: int| at <= i < cut ==> is_nibble(#[trigger] bytes[i]),
    ensures
        unicode_hex(bytes, at, cut, value, digits) matches Ok((seen, count, end)) && count == digits + (cut - at) && end
            == cut && unicode_hex(bytes, cut, limit, seen, count) == unicode_hex(bytes, at, limit, value, digits),
    decreases cut - at,
{
    if at < cut {
        assert(is_nibble(bytes[at]));
        lemma_code_unit_resumes(
            bytes,
            at + 1,
            cut,
            limit,
            shifted_in(value, hex_value(bytes[at])->0),
            (digits + 1) as u8,
        );
    }
}

/// A byte where one of the four digits of a `\u` escape should stand is named where it stands.
pub proof fn lemma_no_code_unit_without_its_digits(bytes: Seq<u8>, at: int, stop: int, limit: int)
    requires
        0 <= at <= stop < limit <= bytes.len(),
        stop < at + 4,
        forall|i: int| at <= i < stop ==> is_nibble(#[trigger] bytes[i]),
        !is_nibble(bytes[stop]),
    ensures
        unicode_hex(bytes, at, limit, 0, 0) == Err::<(u16, u8, int), int>(stop),
{
    reveal_with_fuel(unicode_hex, 6);
    if stop > at {
        assert(is_nibble(bytes[at]));
    }
    if stop > at + 1 {
        assert(is_nibble(bytes[at + 1]));
    }
    if stop > at + 2 {
        assert(is_nibble(bytes[at + 2]));
    }
}

proof fn lemma_digits_run_to(bytes: Seq<u8>, from: int, end: int)
    requires
        0 <= from <= end <= bytes.len(),
        forall|i: int| from <= i < end ==> 0x30 <= #[trigger] bytes[i] <= 0x39,
        end == bytes.len() || !(0x30 <= bytes[end] <= 0x39),
    ensures
        digit_run_end(bytes, from) == end,
    decreases end - from,
{
    if from < end {
        assert(0x30 <= bytes[from] <= 0x39);
        lemma_digits_run_to(bytes, from + 1, end);
    }
}

/// An integer is taken as it stands when it is digits, behind a minus sign or not, with no zero in front of another digit,
/// and when the bytes end behind it or go on with what may follow a value. It ends behind its last digit.
pub proof fn lemma_verbatim_integers_are_these(bytes: Seq<u8>, start: int, first: int, end: int)
    requires
        0 <= start <= first <= end <= bytes.len(),
        first == if start < bytes.len() && bytes[start] == 0x2d {
            start + 1
        } else {
            start
        },
        forall|i: int| first <= i < end ==> 0x30 <= #[trigger] bytes[i] <= 0x39,
        end == bytes.len() || !(0x30 <= bytes[end] <= 0x39),
    ensures
        ({
            let spelled = first < end && (bytes[first] != 0x30 || end == first + 1);
            let parted = end == bytes.len() || white(bytes[end]) || bytes[end] == 0x2c || bytes[end] == 0x5d || bytes[end]
                == 0x7d || bytes[end] == 0x22 || bytes[end] == 0x5b || bytes[end] == 0x7b;
            verbatim_end(bytes, start) == if spelled && parted {
                Some(end)
            } else {
                None
            }
        }),
{
    lemma_digits_run_to(bytes, first, end);
    if first < end {
        assert(0x30 <= bytes[first] <= 0x39);
    }
    if first + 1 < end {
        assert(0x30 <= bytes[first + 1] <= 0x39);
    }
}

/// A spelling is cut short where the bytes at hand are some of its letters, from the first on, and not all of them.
pub proof fn lemma_a_spelling_is_cut_short_by_its_letters(bytes: Seq<u8>, word: Seq<u8>)
    requires
        forall|i: int| 0 <= i < word.len() ==> 0x61 <= #[trigger] word[i] <= 0x7a,
    ensures
        proper_start(bytes, word) <==> bytes.len() < word.len() && letters_at(
            bytes,
            0,
            word.take(bytes.len() as int),
        ),
{
    if bytes.len() < word.len() {
        let head = word.take(bytes.len() as int);
        assert forall|i: int| 0 <= i < head.len() implies 0x61 <= #[trigger] head[i] <= 0x7a by {
            assert(head[i] == word[i]);
        }
        lemma_word_is_its_letters(bytes, 0, head);
        assert(bytes.subrange(0, bytes.len() as int) =~= bytes);
    }
}

} // verus!
