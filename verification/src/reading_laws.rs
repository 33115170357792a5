//! What the deferred-span readers answer, element by element: which elements a range holds, which member of an object a key
//! names, and what an escape stands for.

use vstd::prelude::*;

use crate::byte_scan::{lemma_run_end, lemma_run_end_is, run_end, StopSet};
use crate::count_filter::{
    element_member, last_match, member_at, members_from, object_member, tested_members, MemberView,
};
use crate::edit_style_laws::white;
use crate::lazy::{
    after_element, array_count, counted_from, in_window, null_at, past_window, unescaped, value_end, window,
    AfterElement, CountStep,
};
use crate::shape::{
    items_shape, lemma_filter_ends_where_the_skip_does, lemma_items_end_values, lemma_scans_pass_items,
    lemma_string_shape, shape_end, string_shape, value_place,
};

verus! {

/// Whether a range holds element `index`: its bounds are a first element and one past the last, and a bound that is not
/// given bounds nothing.
pub open spec fn in_range(range: Option<(Option<i64>, Option<i64>)>, index: int) -> bool {
    match range {
        None => true,
        Some((start, end)) => {
            &&& start matches Some(start) ==> index >= start
            &&& end matches Some(end) ==> index < end
        },
    }
}

/// The window of a range holds exactly the elements that the range does.
pub proof fn lemma_window_is_the_range(range: Option<(Option<i64>, Option<i64>)>, index: int)
    requires
        index >= 0,
    ensures
        in_window(index, window(range)) == in_range(range, index),
        past_window(index, window(range)) ==> !in_range(range, index) && !in_range(range, index + 1),
{
}

/// How many elements a strict array holds from the one at `at` on.
pub open spec fn elements_left(bytes: Seq<u8>, at: int) -> nat
    decreases bytes.len() - at,
{
    match shape_end(bytes, at) {
        Some(end) => {
            let next = run_end(bytes, end, StopSet::Ws);
            let more = run_end(bytes, next + 1, StopSet::Ws);
            if at < end <= next < more < bytes.len() && bytes[next] == 0x2c {
                1 + elements_left(bytes, more)
            } else {
                1
            }
        },
        None => 0,
    }
}

/// Where element `index` starts, counted from the one at `at`.
pub open spec fn element_start(bytes: Seq<u8>, at: int, index: nat) -> int
    decreases index,
{
    if index == 0 {
        at
    } else {
        let next = run_end(bytes, shape_end(bytes, at)->0, StopSet::Ws);
        element_start(bytes, run_end(bytes, next + 1, StopSet::Ws), (index - 1) as nat)
    }
}

/// How many of the `count` elements from `from` on a range holds.
pub open spec fn range_count(range: Option<(Option<i64>, Option<i64>)>, from: int, count: nat) -> nat
    decreases count,
{
    if count == 0 {
        0
    } else {
        (if in_range(range, from) {
            1nat
        } else {
            0
        }) + range_count(range, from + 1, (count - 1) as nat)
    }
}

/// A range that has ended holds nothing more.
proof fn lemma_nothing_past_the_range(range: Option<(Option<i64>, Option<i64>)>, from: int, count: nat)
    requires
        from >= 0,
        past_window(from, window(range)),
    ensures
        range_count(range, from, count) == 0,
    decreases count,
{
    lemma_window_is_the_range(range, from);
    if count > 0 {
        lemma_nothing_past_the_range(range, from + 1, (count - 1) as nat);
    }
}

/// One step of a strict array's elements.
proof fn lemma_element_step(bytes: Seq<u8>, at: int)
    requires
        bytes.len() <= usize::MAX,
        items_shape(bytes, at, false) is Some,
    ensures
        ({
            let end = shape_end(bytes, at)->0;
            let next = run_end(bytes, end, StopSet::Ws);
            let more = run_end(bytes, next + 1, StopSet::Ws);
            &&& shape_end(bytes, at) is Some
            &&& 0 <= at < end <= next < bytes.len()
            &&& value_end(bytes, at) == end
            &&& if bytes[next] == 0x2c {
                &&& next < more < bytes.len()
                &&& items_shape(bytes, more, false) is Some
                &&& after_element(bytes, end) == AfterElement::Next(more as usize)
                &&& elements_left(bytes, at) == 1 + elements_left(bytes, more)
            } else {
                &&& after_element(bytes, end) == AfterElement::Close(next as usize)
                &&& elements_left(bytes, at) == 1
            }
        }),
{
    lemma_items_end_values(bytes, at, false);
    let end = shape_end(bytes, at)->0;
    let next = run_end(bytes, end, StopSet::Ws);
    lemma_run_end(bytes, end, StopSet::Ws);
    if bytes[next] == 0x2c {
        let more = run_end(bytes, next + 1, StopSet::Ws);
        lemma_run_end(bytes, next + 1, StopSet::Ws);
        lemma_scans_pass_items(bytes, more, false, 1, 0);
    }
}

/// Whether every in-range element of the `count` from the one at `at` on, whose ordinal is `index`, is an object or null.
pub open spec fn all_countable(
    bytes: Seq<u8>,
    at: int,
    index: int,
    count: nat,
    range: Option<(Option<i64>, Option<i64>)>,
) -> bool {
    forall|k: nat|
        k < count && in_range(range, index + k) ==> ({
            let start = #[trigger] element_start(bytes, at, k);
            0 <= start < bytes.len() && (bytes[start] == 0x7b || null_at(bytes, start))
        })
}

proof fn lemma_counts_the_range(bytes: Seq<u8>, at: int, index: int, range: Option<(Option<i64>, Option<i64>)>, probe: Seq<CountStep>)
    requires
        bytes.len() <= usize::MAX,
        items_shape(bytes, at, false) is Some,
        index >= 0,
        probe.len() == 0 || (probe.len() == 1 && probe[0] is ObjectKey),
    ensures
        ({
            let count = elements_left(bytes, at);
            counted_from(bytes, at, index, window(range), probe) == if probe.len() == 0 || all_countable(
                bytes,
                at,
                index,
                count,
                range,
            ) {
                Some(range_count(range, index, count))
            } else {
                None::<nat>
            }
        }),
    decreases bytes.len() - at,
{
    let limits = window(range);
    let count = elements_left(bytes, at);
    lemma_element_step(bytes, at);
    lemma_window_is_the_range(range, index);
    lemma_window_is_the_range(range, index + 1);
    let end = shape_end(bytes, at)->0;
    let next = run_end(bytes, end, StopSet::Ws);
    let more = run_end(bytes, next + 1, StopSet::Ws);
    assert(element_start(bytes, at, 0) == at);
    if past_window(index + 1, limits) {
        lemma_nothing_past_the_range(range, index + 1, (count - 1) as nat);
        assert(forall|i: int| i > index ==> !#[trigger] in_range(range, i));
        assert(all_countable(bytes, at, index, count, range) <==> (in_range(range, index) ==> bytes[at] == 0x7b || null_at(
            bytes,
            at,
        )));
    } else if bytes[next] == 0x2c {
        lemma_counts_the_range(bytes, more, index + 1, range, probe);
        let rest = elements_left(bytes, more);
        lemma_countable_step(bytes, at, index, range);
    } else {
        assert(range_count(range, index + 1, 0) == 0);
        assert(all_countable(bytes, at, index, count, range) <==> (in_range(range, index) ==> bytes[at] == 0x7b || null_at(
            bytes,
            at,
        )));
    }
}

proof fn lemma_countable_step(bytes: Seq<u8>, at: int, index: int, range: Option<(Option<i64>, Option<i64>)>)
    requires
        bytes.len() <= usize::MAX,
        items_shape(bytes, at, false) is Some,
        bytes[run_end(bytes, shape_end(bytes, at)->0, StopSet::Ws)] == 0x2c,
    ensures
        ({
            let next = run_end(bytes, shape_end(bytes, at)->0, StopSet::Ws);
            let more = run_end(bytes, next + 1, StopSet::Ws);
            all_countable(bytes, at, index, elements_left(bytes, at), range) <==> {
                &&& in_range(range, index) ==> bytes[at] == 0x7b || null_at(bytes, at)
                &&& all_countable(bytes, more, index + 1, elements_left(bytes, more), range)
            }
        }),
{
    lemma_element_step(bytes, at);
    let next = run_end(bytes, shape_end(bytes, at)->0, StopSet::Ws);
    let more = run_end(bytes, next + 1, StopSet::Ws);
    let count = elements_left(bytes, at);
    let rest = elements_left(bytes, more);
    assert(element_start(bytes, at, 0) == at);
    assert forall|k: nat| k < rest implies #[trigger] element_start(bytes, more, k) == element_start(bytes, at, k + 1) by {}
    if all_countable(bytes, at, index, count, range) {
        assert forall|k: nat| k < rest && in_range(range, index + 1 + k) implies ({
            let start = #[trigger] element_start(bytes, more, k);
            0 <= start < bytes.len() && (bytes[start] == 0x7b || null_at(bytes, start))
        }) by {
            assert(element_start(bytes, more, k) == element_start(bytes, at, k + 1));
            assert(in_range(range, index + (k + 1)));
        }
    }
    if (in_range(range, index) ==> bytes[at] == 0x7b || null_at(bytes, at)) && all_countable(
        bytes,
        more,
        index + 1,
        rest,
        range,
    ) {
        assert forall|k: nat| k < count && in_range(range, index + k) implies ({
            let start = #[trigger] element_start(bytes, at, k);
            0 <= start < bytes.len() && (bytes[start] == 0x7b || null_at(bytes, start))
        }) by {
            if k > 0 {
                let j = (k - 1) as nat;
                assert(element_start(bytes, more, j) == element_start(bytes, at, k));
                assert(in_range(range, index + 1 + j));
            }
        }
    }
}

/// Counting a strict array counts exactly the elements that the range holds, however they are spaced and whatever they hold:
/// all of them without a range, and none of an empty array. A one-key probe counts the same, and declines exactly where an
/// element that the range holds is neither an object nor null.
pub proof fn lemma_count_is_of_the_range(bytes: Seq<u8>, range: Option<(Option<i64>, Option<i64>)>, probe: Seq<CountStep>)
    requires
        0 < bytes.len() <= usize::MAX,
        bytes[0] == 0x5b,
        shape_end(bytes, 0) is Some,
        probe.len() == 0 || (probe.len() == 1 && probe[0] is ObjectKey),
    ensures
        ({
            let first = run_end(bytes, 1, StopSet::Ws);
            let count: nat = if bytes[first] == 0x5d {
                0
            } else {
                elements_left(bytes, first)
            };
            array_count(bytes, window(range), probe) == if probe.len() == 0 || all_countable(bytes, first, 0, count, range) {
                Some(range_count(range, 0, count))
            } else {
                None::<nat>
            }
        }),
{
    let first = run_end(bytes, 1, StopSet::Ws);
    if bytes[first] != 0x5d {
        lemma_counts_the_range(bytes, first, 0, range, probe);
    }
}

/// The members that a filter tests of the `count` elements from the one at `at` on: one for each that the range holds, in
/// order, read where the element starts.
pub open spec fn range_members(
    bytes: Seq<u8>,
    at: int,
    index: int,
    count: nat,
    range: Option<(Option<i64>, Option<i64>)>,
    key: Seq<char>,
) -> Option<Seq<MemberView>>
    decreases count,
{
    if count == 0 {
        Some(seq![])
    } else {
        let last = element_start(bytes, at, (count - 1) as nat);
        match range_members(bytes, at, index, (count - 1) as nat, range, key) {
            Some(before) => if !in_range(range, index + count - 1) {
                Some(before)
            } else {
                match element_member(bytes, last, key) {
                    Some((member, _)) => Some(before.push(member)),
                    None => None,
                }
            },
            None => None,
        }
    }
}

/// The first element's member comes first.
proof fn lemma_range_members_front(
    bytes: Seq<u8>,
    at: int,
    index: int,
    count: nat,
    range: Option<(Option<i64>, Option<i64>)>,
    key: Seq<char>,
)
    requires
        count > 0,
    ensures
        ({
            let next = run_end(bytes, shape_end(bytes, at)->0, StopSet::Ws);
            let more = run_end(bytes, next + 1, StopSet::Ws);
            let rest = range_members(bytes, more, index + 1, (count - 1) as nat, range, key);
            let own = element_member(bytes, at, key);
            range_members(bytes, at, index, count, range, key) == if !in_range(range, index) {
                rest
            } else {
                match (own, rest) {
                    (Some((member, _)), Some(rest)) => Some(seq![member] + rest),
                    _ => None,
                }
            }
        }),
    decreases count,
{
    let next = run_end(bytes, shape_end(bytes, at)->0, StopSet::Ws);
    let more = run_end(bytes, next + 1, StopSet::Ws);
    assert(element_start(bytes, at, 0) == at);
    if count == 1 {
        assert(range_members(bytes, more, index + 1, 0, range, key) == Some(Seq::<MemberView>::empty()));
        assert(range_members(bytes, at, index, 0, range, key) == Some(Seq::<MemberView>::empty()));
        if let Some((member, _)) = element_member(bytes, at, key) {
            assert(Seq::<MemberView>::empty().push(member) =~= seq![member] + Seq::<MemberView>::empty());
        }
    } else {
        let less = (count - 1) as nat;
        lemma_range_members_front(bytes, at, index, less, range, key);
        assert(element_start(bytes, at, less) == element_start(bytes, more, (less - 1) as nat));
        let rest = range_members(bytes, more, index + 1, (less - 1) as nat, range, key);
        if let (Some((member, _)), Some(rest)) = (element_member(bytes, at, key), rest) {
            if let Some((last, _)) = element_member(bytes, element_start(bytes, at, less), key) {
                assert((seq![member] + rest).push(last) =~= seq![member] + rest.push(last));
            }
        }
    }
}

proof fn lemma_no_members_past_the_range(
    bytes: Seq<u8>,
    at: int,
    index: int,
    count: nat,
    range: Option<(Option<i64>, Option<i64>)>,
    key: Seq<char>,
)
    requires
        index >= 0,
        past_window(index, window(range)),
    ensures
        range_members(bytes, at, index, count, range, key) == Some(Seq::<MemberView>::empty()),
    decreases count,
{
    if count > 0 {
        lemma_no_members_past_the_range(bytes, at, index, (count - 1) as nat, range, key);
        lemma_window_is_the_range(range, index + count - 1);
    }
}

proof fn lemma_tests_the_range(bytes: Seq<u8>, at: int, index: int, range: Option<(Option<i64>, Option<i64>)>, key: Seq<char>)
    requires
        bytes.len() <= usize::MAX,
        items_shape(bytes, at, false) is Some,
        index >= 0,
    ensures
        members_from(bytes, at, index, window(range), key) == range_members(
            bytes,
            at,
            index,
            elements_left(bytes, at),
            range,
            key,
        ),
    decreases bytes.len() - at,
{
    let limits = window(range);
    let count = elements_left(bytes, at);
    lemma_element_step(bytes, at);
    lemma_filter_ends_where_the_skip_does(bytes, at, key);
    lemma_window_is_the_range(range, index);
    lemma_range_members_front(bytes, at, index, count, range, key);
    let next = run_end(bytes, shape_end(bytes, at)->0, StopSet::Ws);
    let more = run_end(bytes, next + 1, StopSet::Ws);
    let none = Seq::<MemberView>::empty();
    if let Some((member, _)) = element_member(bytes, at, key) {
        assert(seq![member] + none =~= seq![member]);
    }
    if past_window(index + 1, limits) {
        lemma_no_members_past_the_range(bytes, more, index + 1, (count - 1) as nat, range, key);
    } else if bytes[next] == 0x2c {
        lemma_tests_the_range(bytes, more, index + 1, range, key);
        if let Some(rest) = members_from(bytes, more, index + 1, limits, key) {
            assert(none + rest =~= rest);
        }
    } else {
        assert(range_members(bytes, more, index + 1, 0, range, key) == Some(none));
    }
}

/// A filter tests one member for each element of a strict array that the range holds, in order, each read off its own
/// element; it declines exactly where one of those cannot be read, and tests nothing outside the range.
pub proof fn lemma_filter_tests_the_range(bytes: Seq<u8>, range: Option<(Option<i64>, Option<i64>)>, path: Seq<CountStep>)
    requires
        0 < bytes.len() <= usize::MAX,
        bytes[0] == 0x5b,
        shape_end(bytes, 0) is Some,
        path.len() == 1,
        path[0] is ObjectKey,
    ensures
        ({
            let first = run_end(bytes, 1, StopSet::Ws);
            let count: nat = if bytes[first] == 0x5d {
                0
            } else {
                elements_left(bytes, first)
            };
            tested_members(bytes, window(range), path) == range_members(
                bytes,
                first,
                0,
                count,
                range,
                path[0]->ObjectKey_0@,
            )
        }),
{
    let first = run_end(bytes, 1, StopSet::Ws);
    if bytes[first] != 0x5d {
        lemma_tests_the_range(bytes, first, 0, range, path[0]->ObjectKey_0@);
    }
}

/// Whether the member at `at` of a strict object is named `key`.
pub open spec fn is_named(bytes: Seq<u8>, at: int, key: Seq<char>) -> bool {
    string_shape(bytes, at + 1) matches Some(end) && unescaped(bytes.subrange(at + 1, end - 1)) == Some(key)
}

/// How many members a strict object holds from the one at `at` on.
pub open spec fn members_left(bytes: Seq<u8>, at: int) -> nat
    decreases bytes.len() - at,
{
    match value_place(bytes, at, true) {
        Some(value) => match shape_end(bytes, value) {
            Some(end) => {
                let next = run_end(bytes, end, StopSet::Ws);
                let more = run_end(bytes, next + 1, StopSet::Ws);
                if at < end <= next < more < bytes.len() && bytes[next] == 0x2c {
                    1 + members_left(bytes, more)
                } else {
                    1
                }
            },
            None => 0,
        },
        None => 0,
    }
}

/// Where member `index` of a strict object starts, counted from the one at `at`.
pub open spec fn member_start(bytes: Seq<u8>, at: int, index: nat) -> int
    decreases index,
{
    if index == 0 {
        at
    } else {
        let next = run_end(bytes, shape_end(bytes, value_place(bytes, at, true)->0)->0, StopSet::Ws);
        member_start(bytes, run_end(bytes, next + 1, StopSet::Ws), (index - 1) as nat)
    }
}

/// The value that a member walk found.
spec fn hit(found: Option<(Option<int>, int)>) -> Option<int> {
    match found {
        Some((value, _)) => value,
        None => None,
    }
}

/// The walk over a strict object's members finds the last one of a name.
proof fn lemma_last_of_a_name(bytes: Seq<u8>, at: int, key: Seq<char>, matched: Option<int>)
    requires
        items_shape(bytes, at, true) is Some,
    ensures
        ({
            let count = members_left(bytes, at);
            let found = last_match(bytes, at, key, matched);
            &&& found matches Some((_, close)) && bytes[close] == 0x7d
            &&& forall|k: nat|
                k < count && is_named(bytes, #[trigger] member_start(bytes, at, k), key) && (forall|j: nat|
                    k < j < count ==> !is_named(bytes, #[trigger] member_start(bytes, at, j), key)) ==> hit(found)
                    == value_place(bytes, member_start(bytes, at, k), true)
            &&& (forall|k: nat| k < count ==> !is_named(bytes, #[trigger] member_start(bytes, at, k), key)) ==> hit(found)
                == matched
        }),
    decreases bytes.len() - at,
{
    lemma_items_end_values(bytes, at, true);
    lemma_string_shape(bytes, at + 1);
    let value = value_place(bytes, at, true)->0;
    let end = shape_end(bytes, value)->0;
    let next = run_end(bytes, end, StopSet::Ws);
    lemma_run_end(bytes, end, StopSet::Ws);
    let quote = string_shape(bytes, at + 1)->0 - 1;
    let now = if unescaped(bytes.subrange(at + 1, quote)) == Some(key) {
        Some(value)
    } else {
        matched
    };
    let count = members_left(bytes, at);
    let found = last_match(bytes, at, key, matched);
    assert(member_start(bytes, at, 0) == at);
    assert(is_named(bytes, at, key) <==> unescaped(bytes.subrange(at + 1, quote)) == Some(key));
    if bytes[next] == 0x2c {
        let more = run_end(bytes, next + 1, StopSet::Ws);
        lemma_run_end(bytes, next + 1, StopSet::Ws);
        lemma_scans_pass_items(bytes, more, true, 1, 0);
        lemma_last_of_a_name(bytes, more, key, now);
        let rest = members_left(bytes, more);
        assert(count == rest + 1);
        assert forall|k: nat| #[trigger] member_start(bytes, more, k) == member_start(bytes, at, k + 1) by {}
        assert forall|k: nat|
            k < count && is_named(bytes, #[trigger] member_start(bytes, at, k), key) && (forall|j: nat|
                k < j < count ==> !is_named(bytes, #[trigger] member_start(bytes, at, j), key)) implies hit(found)
            == value_place(bytes, member_start(bytes, at, k), true) by {
            if k == 0 {
                assert forall|j: nat| j < rest implies !is_named(bytes, #[trigger] member_start(bytes, more, j), key) by {
                    assert(member_start(bytes, more, j) == member_start(bytes, at, j + 1));
                }
            } else {
                let i = (k - 1) as nat;
                assert(member_start(bytes, more, i) == member_start(bytes, at, k));
                assert forall|j: nat| i < j < rest implies !is_named(bytes, #[trigger] member_start(bytes, more, j), key) by {
                    assert(member_start(bytes, more, j) == member_start(bytes, at, j + 1));
                }
            }
        }
        if forall|k: nat| k < count ==> !is_named(bytes, #[trigger] member_start(bytes, at, k), key) {
            assert(!is_named(bytes, member_start(bytes, at, 0), key));
            assert forall|j: nat| j < rest implies !is_named(bytes, #[trigger] member_start(bytes, more, j), key) by {
                assert(member_start(bytes, more, j) == member_start(bytes, at, j + 1));
            }
        }
    } else {
        assert(count == 1);
    }
}

/// The member that a filter reads of a strict object is the last one of its name, whatever its spacing and however its key is
/// escaped, and null where no member has the name.
pub proof fn lemma_member_is_the_last_of_its_name(bytes: Seq<u8>, open: int, key: Seq<char>, index: nat)
    requires
        0 <= open < bytes.len(),
        bytes[open] == 0x7b,
        shape_end(bytes, open) is Some,
        bytes[run_end(bytes, open + 1, StopSet::Ws)] != 0x7d,
    ensures
        ({
            let first = run_end(bytes, open + 1, StopSet::Ws);
            let count = members_left(bytes, first);
            let read = object_member(bytes, open, key);
            let named = |k: nat| is_named(bytes, member_start(bytes, first, k), key);
            &&& index < count && named(index) && (forall|j: nat| index < j < count ==> !#[trigger] named(j)) ==> {
                let member = member_at(bytes, value_place(bytes, member_start(bytes, first, index), true)->0);
                match member {
                    Some(member) => read matches Some((own, _)) && own == member,
                    None => read is None,
                }
            }
            &&& (forall|j: nat| j < count ==> !#[trigger] named(j)) ==> (read matches Some((own, _)) && own
                == MemberView::Null)
        }),
{
    let first = run_end(bytes, open + 1, StopSet::Ws);
    let count = members_left(bytes, first);
    let named = |k: nat| is_named(bytes, member_start(bytes, first, k), key);
    lemma_last_of_a_name(bytes, first, key, None);
    lemma_members_have_places(bytes, first, index);
    if index < count && named(index) && (forall|j: nat| index < j < count ==> !#[trigger] named(j)) {
        assert forall|j: nat| index < j < count implies !is_named(bytes, #[trigger] member_start(bytes, first, j), key) by {
            assert(!named(j));
        }
    }
    if forall|j: nat| j < count ==> !#[trigger] named(j) {
        assert forall|j: nat| j < count implies !is_named(bytes, #[trigger] member_start(bytes, first, j), key) by {
            assert(!named(j));
        }
    }
}

proof fn lemma_members_have_places(bytes: Seq<u8>, at: int, index: nat)
    requires
        items_shape(bytes, at, true) is Some,
    ensures
        index < members_left(bytes, at) ==> value_place(bytes, member_start(bytes, at, index), true) is Some,
    decreases index,
{
    lemma_items_end_values(bytes, at, true);
    if index > 0 {
        let end = shape_end(bytes, value_place(bytes, at, true)->0)->0;
        let next = run_end(bytes, end, StopSet::Ws);
        lemma_run_end(bytes, end, StopSet::Ws);
        if bytes[next] == 0x2c {
            let more = run_end(bytes, next + 1, StopSet::Ws);
            lemma_run_end(bytes, next + 1, StopSet::Ws);
            lemma_scans_pass_items(bytes, more, true, 1, 0);
            lemma_members_have_places(bytes, more, (index - 1) as nat);
        }
    }
}

/// What follows an element is the first byte behind it that is no whitespace: behind a comma the next element starts at the
/// next such byte, a closing bracket closes the array, and anything else, or nothing, is neither.
pub proof fn lemma_what_follows_an_element(bytes: Seq<u8>, end: int, at: int, next: int)
    requires
        0 <= end <= at <= bytes.len() <= usize::MAX,
        forall|i: int| end <= i < at ==> white(#[trigger] bytes[i]),
        at == bytes.len() || !white(bytes[at]),
        at < bytes.len() ==> at < next <= bytes.len() && (next == bytes.len() || !white(bytes[next])) && forall|i: int|
            at < i < next ==> white(#[trigger] bytes[i]),
    ensures
        after_element(bytes, end) == if at < bytes.len() && bytes[at] == 0x2c && next < bytes.len() {
            AfterElement::Next(next as usize)
        } else if at < bytes.len() && bytes[at] == 0x5d {
            AfterElement::Close(at as usize)
        } else {
            AfterElement::Broken
        },
{
    assert forall|i: int| end <= i < at implies !StopSet::Ws.stops(#[trigger] bytes[i]) by {
        assert(white(bytes[i]));
    }
    lemma_run_end_is(bytes, end, StopSet::Ws, at);
    if at < bytes.len() {
        assert forall|i: int| at + 1 <= i < next implies !StopSet::Ws.stops(#[trigger] bytes[i]) by {
            assert(white(bytes[i]));
        }
        lemma_run_end_is(bytes, at + 1, StopSet::Ws, next);
    }
}

} // verus!
