//! Counting an array span's elements under a predicate on one member, without building an element.
//!
//! The walk reads the tested member of every in-range element into a [`CountMember`]; the predicate answers each, and
//! [`count_answers`] adds the answers up. The per-element read follows the build laws exactly: the LAST occurrence of a
//! key supplies its value, escaped keys decode before the comparison, and an absent member reads null.

use vstd::prelude::*;

use crate::ascii::{
    CLOSE_BRACE, CLOSE_BRACKET, COLON, COMMA, LOWER_F, LOWER_T, MINUS, NINE, OPEN_BRACE, OPEN_BRACKET, QUOTE, ZERO,
};

use crate::byte_scan::{lemma_run_end, run_end, scan_to, StopSet};
use crate::lazy::{
    after_element, coefficient_end, coefficient_span, content_end, decimal_parts, decoded_is, in_window,
    lemma_after_element, lemma_content_end, lemma_value_end, literal_parts, null_at, past_window, read_string_content,
    skip_value, skip_ws, span_limits, spells_null, step_over, unescape_string, unescaped, value_end, window,
    AfterElement, ContainerSpanKind, CountStep, CountVerdict,
};
use crate::number::is_digit;

verus! {

/// The tested member of one element.
#[derive(Debug)]
pub enum CountMember {
    /// Null, or no such member.
    Null,
    /// A boolean.
    Bool(bool),
    /// A string's text.
    Text(String),
    /// A number: the coefficient's digits, read as an integer scaled down by `scale` decimal places.
    Decimal { negative: bool, digits: String, scale: i64 },
    /// An array.
    Array,
    /// An object.
    Object,
}

/// What a member is, over texts.
pub ghost enum MemberView {
    Null,
    Bool(bool),
    Text(Seq<char>),
    Decimal { negative: bool, digits: Seq<char>, scale: int },
    Array,
    Object,
}

impl View for CountMember {
    type V = MemberView;

    open spec fn view(&self) -> MemberView {
        match self {
            CountMember::Null => MemberView::Null,
            CountMember::Bool(value) => MemberView::Bool(*value),
            CountMember::Text(text) => MemberView::Text(text@),
            CountMember::Decimal { negative, digits, scale } => MemberView::Decimal {
                negative: *negative,
                digits: digits@,
                scale: *scale as int,
            },
            CountMember::Array => MemberView::Array,
            CountMember::Object => MemberView::Object,
        }
    }
}

/// The digits among the first `upto` bytes of a literal.
pub open spec fn digits_before(literal: Seq<u8>, upto: int) -> Seq<char>
    decreases upto,
{
    if upto <= 0 || upto > literal.len() {
        seq![]
    } else if is_digit(literal[upto - 1]) {
        digits_before(literal, upto - 1).push(literal[upto - 1] as char)
    } else {
        digits_before(literal, upto - 1)
    }
}

/// The member whose value starts at `at`.
pub open spec fn member_at(bytes: Seq<u8>, at: int) -> Option<MemberView> {
    if !(0 <= at < bytes.len()) {
        None
    } else if null_at(bytes, at) {
        Some(MemberView::Null)
    } else if bytes[at] == LOWER_T {
        Some(MemberView::Bool(true))
    } else if bytes[at] == LOWER_F {
        Some(MemberView::Bool(false))
    } else if bytes[at] == QUOTE {
        match content_end(bytes, at + 1) {
            Some(end) => match unescaped(bytes.subrange(at + 1, end)) {
                Some(text) => Some(MemberView::Text(text)),
                None => None,
            },
            None => None,
        }
    } else if bytes[at] == MINUS || is_digit(bytes[at]) {
        let literal = bytes.subrange(at, run_end(bytes, at, StopSet::Delimiter));
        match literal_parts(literal) {
            Some((negative, scale)) => Some(
                MemberView::Decimal { negative, digits: digits_before(literal, coefficient_end(literal)), scale },
            ),
            None => None,
        }
    } else if bytes[at] == OPEN_BRACKET {
        Some(MemberView::Array)
    } else if bytes[at] == OPEN_BRACE {
        Some(MemberView::Object)
    } else {
        None
    }
}

/// The digits of a literal's coefficient.
fn coefficient_digits(literal: &[u8]) -> (digits: String)
    ensures
        digits@ == digits_before(literal@, coefficient_end(literal@)),
{
    let (_, end) = coefficient_span(literal);
    let mut digits = String::new();
    let mut at: usize = 0;
    assert(digits@ =~= seq![]);
    while at < end
        invariant
            at <= end <= literal.len(),
            digits@ == digits_before(literal@, at as int),
        decreases end - at,
    {
        if ZERO <= literal[at] && literal[at] <= NINE {
            digits.push(literal[at] as char);
        }
        at += 1;
    }
    digits
}

/// Classifies the tested member at its first significant byte. Null is matched by its exact spelling: the non-finite
/// spellings share its leading byte and are numbers.
pub fn classify_member(bytes: &[u8], at: usize) -> (member: Option<CountMember>)
    ensures
        match member {
            Some(member) => member_at(bytes@, at as int) == Some(member@),
            None => member_at(bytes@, at as int) is None,
        },
{
    if at >= bytes.len() {
        return None;
    }
    if spells_null(bytes, at) {
        return Some(CountMember::Null);
    }
    match bytes[at] {
        LOWER_T => Some(CountMember::Bool(true)),
        LOWER_F => Some(CountMember::Bool(false)),
        QUOTE => match read_string_content(bytes, at) {
            Some((_, raw)) => match unescape_string(raw) {
                Some(text) => Some(CountMember::Text(text)),
                None => None,
            },
            None => None,
        },
        OPEN_BRACKET => Some(CountMember::Array),
        OPEN_BRACE => Some(CountMember::Object),
        first => {
            if first != MINUS && !(ZERO <= first && first <= NINE) {
                return None;
            }
            let end = scan_to(StopSet::Delimiter, bytes, at);
            let literal = vstd::slice::slice_subrange(bytes, at, end);
            match decimal_parts(literal) {
                Some((negative, scale)) => Some(
                    CountMember::Decimal { negative, digits: coefficient_digits(literal), scale },
                ),
                None => None,
            }
        }
    }
}

/// Where the value of an object's last member named `key` starts, and where the object's closing brace stands, for the
/// members from `at` on after a match at `matched`. `None` where the members cannot be read.
pub open spec fn last_match(bytes: Seq<u8>, at: int, key: Seq<char>, matched: Option<int>) -> Option<(Option<int>, int)>
    decreases bytes.len() - at,
    when 0 <= at <= bytes.len()
    via last_match_decreases
{
    if at >= bytes.len() {
        None
    } else if bytes[at] == CLOSE_BRACE {
        Some((matched, at))
    } else if bytes[at] == QUOTE {
        match content_end(bytes, at + 1) {
            Some(quote) => {
                let colon = run_end(bytes, quote + 1, StopSet::Ws);
                let value = run_end(bytes, colon + 1, StopSet::Ws);
                let next = run_end(bytes, value_end(bytes, value), StopSet::Ws);
                let now = if unescaped(bytes.subrange(at + 1, quote)) == Some(key) {
                    Some(value)
                } else {
                    matched
                };
                if colon >= bytes.len() || bytes[colon] != COLON || value >= bytes.len() || next >= bytes.len() {
                    None
                } else if bytes[next] == CLOSE_BRACE {
                    Some((now, next))
                } else if bytes[next] == COMMA {
                    last_match(bytes, run_end(bytes, next + 1, StopSet::Ws), key, now)
                } else {
                    None
                }
            },
            None => None,
        }
    } else {
        None
    }
}

/// Every step of a member walk moves forward.
proof fn lemma_member_step(bytes: Seq<u8>, at: int)
    requires
        0 <= at < bytes.len(),
    ensures
        content_end(bytes, at + 1) matches Some(quote) ==> {
            let colon = run_end(bytes, quote + 1, StopSet::Ws);
            let value = run_end(bytes, colon + 1, StopSet::Ws);
            let next = run_end(bytes, value_end(bytes, value), StopSet::Ws);
            &&& at < quote < bytes.len()
            &&& quote < colon <= bytes.len()
            &&& colon < bytes.len() ==> colon < value <= bytes.len() && value <= next <= bytes.len()
            &&& colon < bytes.len() && next < bytes.len() ==> next < run_end(bytes, next + 1, StopSet::Ws)
                <= bytes.len()
        },
{
    lemma_content_end(bytes, at + 1);
    if let Some(quote) = content_end(bytes, at + 1) {
        lemma_run_end(bytes, quote + 1, StopSet::Ws);
        let colon = run_end(bytes, quote + 1, StopSet::Ws);
        if colon < bytes.len() {
            lemma_run_end(bytes, colon + 1, StopSet::Ws);
            let value = run_end(bytes, colon + 1, StopSet::Ws);
            lemma_value_end(bytes, value);
            lemma_run_end(bytes, value_end(bytes, value), StopSet::Ws);
            let next = run_end(bytes, value_end(bytes, value), StopSet::Ws);
            if next < bytes.len() {
                lemma_run_end(bytes, next + 1, StopSet::Ws);
            }
        }
    }
}

#[via_fn]
proof fn last_match_decreases(bytes: Seq<u8>, at: int, key: Seq<char>, matched: Option<int>) {
    if at < bytes.len() {
        lemma_member_step(bytes, at);
    }
}

/// The tested member of the object that opens at `start`, and the position one past its closing brace.
pub open spec fn object_member(bytes: Seq<u8>, start: int, key: Seq<char>) -> Option<(MemberView, int)> {
    match last_match(bytes, run_end(bytes, start + 1, StopSet::Ws), key, None) {
        Some((Some(at), close)) => match member_at(bytes, at) {
            Some(member) => Some((member, close + 1)),
            None => None,
        },
        Some((None, close)) => Some((MemberView::Null, close + 1)),
        None => None,
    }
}

/// Scans one object element's TOP-LEVEL members for `target_key` and gives the last match's value (absent reads null)
/// with the position one past the closing brace. `None` where a member cannot be read.
///
/// Duplicate keys follow the build law — the LAST occurrence supplies the value — so the scan never stops at the first
/// match.
pub fn object_member_contribution(bytes: &[u8], object_start: usize, target_key: &str) -> (read: Option<
    (CountMember, usize),
>)
    requires
        object_start < bytes.len(),
    ensures
        match read {
            Some((member, end)) => {
                &&& object_member(bytes@, object_start as int, target_key@) == Some((member@, end as int))
                &&& object_start < end <= bytes.len()
            },
            None => object_member(bytes@, object_start as int, target_key@) is None,
        },
{
    let mut cursor: usize = skip_ws(bytes, object_start + 1);
    let mut matched: Option<usize> = None;
    let ghost wanted = last_match(bytes@, cursor as int, target_key@, None);
    loop
        invariant_except_break
            object_start < cursor <= bytes.len(),
            wanted == last_match(bytes@, cursor as int, target_key@, match matched {
                Some(at) => Some(at as int),
                None => None,
            }),
        invariant
            wanted == last_match(
                bytes@,
                run_end(bytes@, object_start + 1, StopSet::Ws),
                target_key@,
                None,
            ),
        ensures
            object_start < cursor < bytes.len(),
            wanted == Some((match matched {
                Some(at) => Some(at as int),
                None => None,
            }, cursor as int)),
        decreases bytes.len() - cursor,
    {
        if cursor >= bytes.len() {
            return None;
        }
        proof {
            lemma_member_step(bytes@, cursor as int);
        }
        match bytes[cursor] {
            CLOSE_BRACE => break,
            QUOTE => match read_string_content(bytes, cursor) {
                Some((after_key, raw_key)) => {
                    let is_match = decoded_is(raw_key, target_key);
                    cursor = skip_ws(bytes, after_key);
                    if cursor >= bytes.len() || bytes[cursor] != COLON {
                        return None;
                    }
                    cursor = skip_ws(bytes, cursor + 1);
                    if cursor >= bytes.len() {
                        return None;
                    }
                    if is_match {
                        matched = Some(cursor);
                    }
                    cursor = skip_value(bytes, cursor);
                }
                None => return None,
            },
            _ => return None,
        }
        cursor = skip_ws(bytes, cursor);
        if cursor >= bytes.len() {
            return None;
        }
        match bytes[cursor] {
            COMMA => cursor = skip_ws(bytes, cursor + 1),
            CLOSE_BRACE => break,
            _ => return None,
        }
    }
    match matched {
        Some(at) => match classify_member(bytes, at) {
            Some(member) => Some((member, cursor + 1)),
            None => None,
        },
        // An ABSENT member reads null: a real answer, never a decline.
        None => Some((CountMember::Null, cursor + 1)),
    }
}

/// The tested member of the element at `pos`, and where the element ends: an object's member, or null through a null
/// element. Any other element is declined.
pub open spec fn element_member(bytes: Seq<u8>, pos: int, key: Seq<char>) -> Option<(MemberView, int)> {
    if 0 <= pos < bytes.len() && bytes[pos] == OPEN_BRACE {
        object_member(bytes, pos, key)
    } else if 0 <= pos && null_at(bytes, pos) {
        Some((MemberView::Null, value_end(bytes, pos)))
    } else {
        None
    }
}

/// The tested members of the elements in the window, from the one at `pos` with ordinal `index` on.
pub open spec fn members_from(
    bytes: Seq<u8>,
    pos: int,
    index: int,
    limits: (u64, Option<u64>),
    key: Seq<char>,
) -> Option<Seq<MemberView>>
    decreases bytes.len() - pos,
    when 0 <= pos < bytes.len() <= usize::MAX
    via members_from_decreases
{
    let element = if in_window(index, limits) {
        element_member(bytes, pos, key)
    } else {
        Some((MemberView::Null, value_end(bytes, pos)))
    };
    match element {
        None => None,
        Some((member, end)) => {
            let own = if in_window(index, limits) {
                seq![member]
            } else {
                seq![]
            };
            if past_window(index + 1, limits) {
                Some(own)
            } else {
                match after_element(bytes, end) {
                    AfterElement::Next(next) => match members_from(bytes, next as int, index + 1, limits, key) {
                        Some(rest) => Some(own + rest),
                        None => None,
                    },
                    AfterElement::Close(_) => Some(own),
                    AfterElement::Broken => None,
                }
            }
        },
    }
}

/// A member walk ends inside the bytes, past where it began.
proof fn lemma_last_match(bytes: Seq<u8>, at: int, key: Seq<char>, matched: Option<int>)
    requires
        0 <= at <= bytes.len(),
    ensures
        last_match(bytes, at, key, matched) matches Some((_, close)) ==> at <= close < bytes.len(),
    decreases bytes.len() - at,
{
    if at < bytes.len() && bytes[at] == QUOTE {
        lemma_member_step(bytes, at);
        if let Some(quote) = content_end(bytes, at + 1) {
            let colon = run_end(bytes, quote + 1, StopSet::Ws);
            let value = run_end(bytes, colon + 1, StopSet::Ws);
            let next = run_end(bytes, value_end(bytes, value), StopSet::Ws);
            let now = if unescaped(bytes.subrange(at + 1, quote)) == Some(key) {
                Some(value)
            } else {
                matched
            };
            if colon < bytes.len() && bytes[colon] == COLON && value < bytes.len() && next < bytes.len() && bytes[next]
                == COMMA {
                lemma_last_match(bytes, run_end(bytes, next + 1, StopSet::Ws), key, now);
            }
        }
    }
}

proof fn lemma_element_member(bytes: Seq<u8>, pos: int, key: Seq<char>)
    requires
        0 <= pos < bytes.len(),
    ensures
        element_member(bytes, pos, key) matches Some((_, end)) ==> pos <= end <= bytes.len(),
{
    lemma_run_end(bytes, pos + 1, StopSet::Ws);
    lemma_last_match(bytes, run_end(bytes, pos + 1, StopSet::Ws), key, None);
    lemma_value_end(bytes, pos);
}

#[via_fn]
proof fn members_from_decreases(bytes: Seq<u8>, pos: int, index: int, limits: (u64, Option<u64>), key: Seq<char>) {
    lemma_element_member(bytes, pos, key);
    lemma_value_end(bytes, pos);
    if in_window(index, limits) {
        if let Some((_, end)) = element_member(bytes, pos, key) {
            lemma_after_element(bytes, end);
        }
    } else {
        lemma_after_element(bytes, value_end(bytes, pos));
    }
}

/// The members a filtered count tests: none of an empty array, and otherwise the in-range elements' members, under a
/// path of exactly one key. Any other path declines.
pub open spec fn tested_members(
    bytes: Seq<u8>,
    limits: (u64, Option<u64>),
    path: Seq<CountStep>,
) -> Option<Seq<MemberView>> {
    let pos = run_end(bytes, 1, StopSet::Ws);
    if pos >= bytes.len() || bytes[pos] == CLOSE_BRACKET {
        Some(seq![])
    } else if path.len() != 1 {
        None
    } else {
        match path[0] {
            CountStep::ObjectKey(key) => members_from(bytes, pos, 0, limits, key@),
            CountStep::ArrayIndex(_) => None,
        }
    }
}

/// What the members stand for.
pub open spec fn member_views(members: Seq<CountMember>) -> Seq<MemberView> {
    members.map_values(|member: CountMember| member@)
}

/// Reads the tested member of every in-range top-level element of an ARRAY span: a byte scan that never builds a leaf,
/// the filtered twin of [`crate::lazy::count_array_span`]. `None` declines: a path of any other shape, an element whose
/// category would raise, or a member that cannot be read.
pub fn count_array_span_filtered(
    bytes: &[u8],
    range: Option<(Option<i64>, Option<i64>)>,
    path: &Vec<CountStep>,
) -> (members: Option<Vec<CountMember>>)
    requires
        bytes.len() > 0,
    ensures
        match members {
            Some(members) => tested_members(bytes@, window(range), path@) == Some(member_views(members@)),
            None => tested_members(bytes@, window(range), path@) is None,
        },
{
    let mut members: Vec<CountMember> = Vec::new();
    // The span starts with `[`; walk past it and the leading whitespace.
    let mut pos: usize = skip_ws(bytes, 1);
    assert(member_views(members@) =~= seq![]);
    if pos >= bytes.len() || bytes[pos] == CLOSE_BRACKET {
        return Some(members);
    }
    let limits = span_limits(range);
    if path.len() != 1 {
        return None;
    }
    let key = match &path[0] {
        CountStep::ObjectKey(key) => key.as_str(),
        CountStep::ArrayIndex(_) => return None,
    };
    let ghost wanted = members_from(bytes@, pos as int, 0, limits, key@);
    let mut index: u64 = 0;
    loop
        invariant
            pos < bytes.len(),
            index <= pos,
            limits == window(range),
            wanted == tested_members(bytes@, limits, path@),
            wanted == match members_from(bytes@, pos as int, index as int, limits, key@) {
                Some(rest) => Some(member_views(members@) + rest),
                None => None,
            },
        decreases bytes.len() - pos,
    {
        proof {
            lemma_element_member(bytes@, pos as int, key@);
        }
        let ghost before = members@;
        let in_range = index >= limits.0 && match limits.1 {
            Some(end) => index < end,
            None => true,
        };
        let end: usize;
        if in_range {
            if bytes[pos] == OPEN_BRACE {
                match object_member_contribution(bytes, pos, key) {
                    Some((member, after)) => {
                        members.push(member);
                        end = after;
                    }
                    None => return None,
                }
            } else if spells_null(bytes, pos) {
                members.push(CountMember::Null);
                end = skip_value(bytes, pos);
            } else {
                // Every other category raises on a type mismatch: decline, and let the built value say so.
                return None;
            }
            assert(member_views(members@) =~= member_views(before).push(members@.last()@));
        } else {
            end = skip_value(bytes, pos);
        }
        index += 1;
        if let Some(last) = limits.1 {
            if index >= last {
                assert(wanted == Some(member_views(members@)));
                return Some(members);
            }
        }
        match step_over(bytes, end) {
            AfterElement::Next(next) => {
                proof {
                    if let Some(rest) = members_from(bytes@, next as int, index as int, limits, key@) {
                        assert(member_views(before).push(members@.last()@) + rest =~= member_views(before) + (
                        seq![members@.last()@] + rest));
                        assert(seq![] + rest =~= rest);
                    }
                }
                pos = next;
            }
            AfterElement::Close(_) => {
                assert(wanted == Some(member_views(members@)));
                return Some(members);
            }
            AfterElement::Broken => return None,
        }
    }
}

/// Reads the tested member of every in-range element of a deferred container. Iterating an object's members needs the
/// duplicate-key law over the raw key text, which only the built value answers: an object declines.
pub fn count_span_filtered(
    bytes: &[u8],
    container: ContainerSpanKind,
    range: Option<(Option<i64>, Option<i64>)>,
    path: &Vec<CountStep>,
) -> (members: Option<Vec<CountMember>>)
    requires
        container == ContainerSpanKind::Array ==> bytes.len() > 0,
    ensures
        match container {
            ContainerSpanKind::Array => match members {
                Some(members) => tested_members(bytes@, window(range), path@) == Some(member_views(members@)),
                None => tested_members(bytes@, window(range), path@) is None,
            },
            ContainerSpanKind::Object => members is None,
        },
{
    match container {
        ContainerSpanKind::Array => count_array_span_filtered(bytes, range, path),
        ContainerSpanKind::Object => None,
    }
}

/// How many of the first `upto` answers are true.
pub open spec fn true_answers(answers: Seq<Option<bool>>, upto: int) -> nat
    decreases upto,
{
    if upto <= 0 || upto > answers.len() {
        0
    } else if answers[upto - 1] == Some(true) {
        true_answers(answers, upto - 1) + 1
    } else {
        true_answers(answers, upto - 1)
    }
}

/// What a predicate's answers come to: an element counts where its answer is true, and one that the predicate cannot
/// rank declines the whole count.
pub fn count_answers(answers: &Vec<Option<bool>>) -> (verdict: CountVerdict)
    ensures
        verdict == if exists|i: int| 0 <= i < answers.len() && #[trigger] answers@[i] is None {
            CountVerdict::Decline
        } else {
            CountVerdict::Count(true_answers(answers@, answers.len() as int) as u64)
        },
{
    let mut total: u64 = 0;
    let mut i: usize = 0;
    while i < answers.len()
        invariant
            i <= answers.len(),
            total <= i,
            total == true_answers(answers@, i as int),
            forall|k: int| 0 <= k < i ==> #[trigger] answers@[k] is Some,
        decreases answers.len() - i,
    {
        match answers[i] {
            Some(true) => total += 1,
            Some(false) => {}
            None => return CountVerdict::Decline,
        }
        i += 1;
    }
    CountVerdict::Count(total)
}

} // verus!
