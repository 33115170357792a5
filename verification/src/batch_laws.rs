//! What a batch of elements is, element by element, and which elements are sure to be read.

use vstd::prelude::*;

use crate::byte_scan::StopSet;
use crate::count_filter::true_answers;
use crate::edit_style_laws::white;
use crate::element_batch::{
    batch_text, batch_width, first_byte_law, is_batch, lemma_batches_lose_nothing, lemma_walk_moves_forward, listed,
    open_batch, planned_visit, provable_from, skipped, stepped, walked, ElementProbe, ElementRow, FirstByteLaw,
    Skipped, VisitPlan,
};
use crate::lazy::{after_element, in_window, lemma_after_element, lemma_value_end, past_window, value_end, AfterElement};

verus! {

/// The texts of the first `count` elements from `pos` on.
pub open spec fn element_views(bytes: Seq<u8>, pos: int, count: nat) -> Seq<Seq<u8>> {
    Seq::new(
        count,
        |i: int| bytes.subrange(walked(bytes, pos, i as nat)->0, value_end(bytes, walked(bytes, pos, i as nat)->0)),
    )
}

/// Texts with a comma between each two of them.
pub open spec fn comma_joined(texts: Seq<Seq<u8>>) -> Seq<u8>
    decreases texts.len(),
{
    if texts.len() == 0 {
        seq![]
    } else if texts.len() == 1 {
        texts[0]
    } else {
        texts[0] + seq![0x2cu8] + comma_joined(texts.skip(1))
    }
}

proof fn lemma_joined_push(texts: Seq<Seq<u8>>, text: Seq<u8>)
    ensures
        texts.len() > 0 ==> comma_joined(texts.push(text)) == comma_joined(texts) + seq![0x2cu8] + text,
        texts.len() == 0 ==> comma_joined(texts.push(text)) == text,
    decreases texts.len(),
{
    let more = texts.push(text);
    if texts.len() > 0 {
        assert(more.skip(1) =~= texts.skip(1).push(text));
        lemma_joined_push(texts.skip(1), text);
        if texts.len() == 1 {
            assert(texts.skip(1).len() == 0);
        }
        assert(comma_joined(more) =~= comma_joined(texts) + seq![0x2cu8] + text);
    }
}

proof fn lemma_list_is_joined(bytes: Seq<u8>, pos: int, count: nat)
    requires
        count > 0,
        walked(bytes, pos, (count - 1) as nat) is Some,
    ensures
        listed(bytes, pos, count) == comma_joined(element_views(bytes, pos, count)).push(0x2c),
    decreases count,
{
    let before = (count - 1) as nat;
    let at = walked(bytes, pos, before)->0;
    let views = element_views(bytes, pos, count);
    let early = element_views(bytes, pos, before);
    let text = bytes.subrange(at, value_end(bytes, at));
    assert(views =~= early.push(text));
    lemma_joined_push(early, text);
    if before > 0 {
        assert(walked(bytes, pos, (before - 1) as nat) is Some);
        lemma_list_is_joined(bytes, pos, before);
        assert(listed(bytes, pos, count) =~= comma_joined(views).push(0x2c));
    } else {
        assert(listed(bytes, pos, before) =~= seq![]);
        assert(early =~= seq![]);
        assert(listed(bytes, pos, count) =~= comma_joined(views).push(0x2c));
    }
}

/// A batch is an array of its elements, each with its own bytes and in the array's order, with one comma between each two
/// and nothing else.
pub proof fn lemma_batch_is_an_array_of_its_elements(bytes: Seq<u8>, pos: int, count: nat)
    requires
        count > 0,
        walked(bytes, pos, (count - 1) as nat) is Some,
    ensures
        batch_text(bytes, pos, count) == seq![0x5bu8] + comma_joined(element_views(bytes, pos, count)) + seq![0x5du8],
{
    lemma_list_is_joined(bytes, pos, count);
    let joined = comma_joined(element_views(bytes, pos, count));
    assert(joined.push(0x2c).drop_last() =~= joined);
}

/// A batch holds at least one element, never more than two hundred and fifty-six, and none past the range's end. It ends
/// early only where the array does, or with the element that brings its text to sixty-four kibibytes.
pub proof fn lemma_batch_stops_for_a_reason(
    bytes: Seq<u8>,
    pos: int,
    index: int,
    limit: Option<u64>,
    count: nat,
    next: int,
)
    requires
        0 <= index,
        0 <= pos < bytes.len() <= usize::MAX,
        is_batch(bytes, pos, batch_width(index, limit), count, next),
    ensures
        1 <= count <= 256,
        limit matches Some(end) ==> index + count <= end,
        0 <= next < bytes.len() && bytes[next] == 0x5d || count == 256 || limit == Some((index + count) as u64)
            || batch_text(bytes, pos, count).len() >= 65536,
        count > 1 ==> batch_text(bytes, pos, (count - 1) as nat).len() < 65536,
{
    lemma_walk_moves_forward(bytes, pos, count);
    assert(!open_batch(bytes, pos, count, batch_width(index, limit)));
    let before = (count - 1) as nat;
    assert(walked(bytes, pos, before) is Some);
    lemma_list_is_joined(bytes, pos, count);
    if count > 1 {
        assert(open_batch(bytes, pos, before, batch_width(index, limit)));
        assert(walked(bytes, pos, (before - 1) as nat) is Some);
        lemma_list_is_joined(bytes, pos, before);
    }
}

/// A path of no step reads every element; a key reads objects, an index arrays, and a length both; each of them reads a
/// null too, spelled out, and is sure of nothing else. A longer path is sure of no element by its first byte.
pub proof fn lemma_sure_elements_are_these(probe: ElementProbe, bytes: Seq<u8>, pos: int)
    requires
        0 <= pos < bytes.len(),
    ensures
        ({
            let null = pos + 4 <= bytes.len() && bytes[pos] == 0x6e && bytes[pos + 1] == 0x75 && bytes[pos + 2] == 0x6c
                && bytes[pos + 3] == 0x6c;
            let law = first_byte_law(probe);
            match probe {
                ElementProbe::Path(path) => {
                    &&& path@.len() == 0 ==> (law matches Some(law) && law.covers(bytes, pos))
                    &&& path@.len() == 1 && path@[0] is ObjectKey ==> (law matches Some(law) && law.covers(bytes, pos) == (
                    bytes[pos] == 0x7b || null))
                    &&& path@.len() == 1 && path@[0] is ArrayIndex ==> (law matches Some(law) && law.covers(bytes, pos) == (
                    bytes[pos] == 0x5b || null))
                    &&& path@.len() > 1 ==> law is None
                },
                ElementProbe::Length => law matches Some(law) && law.covers(bytes, pos) == (bytes[pos] == 0x7b
                    || bytes[pos] == 0x5b || null),
            }
        }),
{
}

/// The count of a predicate's answers is the number of elements it is true of: those that are left when every other
/// answer is taken out.
pub proof fn lemma_true_answers_are_counted(answers: Seq<Option<bool>>)
    ensures
        true_answers(answers, answers.len() as int) == answers.filter(|answer: Option<bool>| answer == Some(true)).len(),
{
    lemma_true_answers_up_to(answers, answers.len() as int);
    assert(answers.take(answers.len() as int) =~= answers);
}

proof fn lemma_true_answers_up_to(answers: Seq<Option<bool>>, upto: int)
    requires
        0 <= upto <= answers.len(),
    ensures
        true_answers(answers, upto) == answers.take(upto).filter(|answer: Option<bool>| answer == Some(true)).len(),
    decreases upto,
{
    reveal(Seq::filter);
    if upto > 0 {
        lemma_true_answers_up_to(answers, upto - 1);
        assert(answers.take(upto).drop_last() =~= answers.take(upto - 1));
        assert(answers.take(upto).last() == answers[upto - 1]);
    }
}

/// Skipping ends at the element that many elements on, says that the array is shorter where its closing bracket comes
/// first, and declines where the walk breaks off before either.
pub proof fn lemma_skip_ends_where_the_array_does(bytes: Seq<u8>, pos: int, skip: nat, count: nat)
    requires
        0 <= pos < bytes.len() <= usize::MAX,
        walked(bytes, pos, count) is Some,
        count <= skip,
    ensures
        ({
            let at = walked(bytes, pos, count)->0;
            &&& count == skip ==> skipped(bytes, pos, skip) == Skipped::At(at as usize)
            &&& count < skip && bytes[at] == 0x5d ==> skipped(bytes, pos, skip) == Skipped::Short
            &&& count < skip && bytes[at] != 0x5d && stepped(bytes, at) is None ==> skipped(bytes, pos, skip)
                == Skipped::Decline
        }),
    decreases skip,
{
    lemma_walk_moves_forward(bytes, pos, count);
    if count > 0 {
        lemma_walk_splits(bytes, pos, count);
        let next = walked(bytes, pos, 1)->0;
        lemma_walk_moves_forward(bytes, pos, 1);
        assert(walked(bytes, pos, 0) == Some(pos));
        assert(stepped(bytes, pos) == Some(next));
        lemma_skip_ends_where_the_array_does(bytes, next, (skip - 1) as nat, (count - 1) as nat);
    } else {
        assert(walked(bytes, pos, 0) == Some(pos));
    }
}

proof fn lemma_walk_splits(bytes: Seq<u8>, pos: int, count: nat)
    requires
        count > 0,
        walked(bytes, pos, count) is Some,
    ensures
        walked(bytes, pos, 1) is Some,
        walked(bytes, walked(bytes, pos, 1)->0, (count - 1) as nat) == walked(bytes, pos, count),
    decreases count,
{
    if count > 1 {
        lemma_walk_splits(bytes, pos, (count - 1) as nat);
        assert(((count - 1) as nat - 1) as nat == (count - 2) as nat);
    } else {
        assert(walked(bytes, walked(bytes, pos, 1)->0, 0) == walked(bytes, pos, 1));
    }
}

/// An array with nothing but whitespace in it has no element to visit. In any other the visit starts at the first element: a
/// fold visits at once; a fan-out by a path of more than one step checks first; and any other fan-out visits at once
/// where every in-range element is sure to be read, and declines otherwise.
pub proof fn lemma_visits_start_at_the_first_element(
    bytes: Seq<u8>,
    row: ElementRow,
    range: Option<(Option<i64>, Option<i64>)>,
    probe: ElementProbe,
    first: int,
)
    requires
        0 < bytes.len() <= usize::MAX,
        1 <= first <= bytes.len(),
        forall|i: int| 1 <= i < first ==> white(#[trigger] bytes[i]),
        first == bytes.len() || !white(bytes[first]),
    ensures
        ({
            let plan = planned_visit(bytes, row, range, probe);
            let empty = first == bytes.len() || bytes[first] == 0x5d;
            &&& empty ==> plan is Empty
            &&& !empty && row is ReduceFold ==> plan == VisitPlan::Visit(first as usize)
            &&& !empty && row is FanOut && (probe matches ElementProbe::Path(path) && path@.len() > 1) ==> plan
                == VisitPlan::CheckThenVisit(first as usize)
            &&& !empty && row is FanOut && !(probe matches ElementProbe::Path(path) && path@.len() > 1) ==> plan
                == VisitPlan::Visit(first as usize) || plan is Decline
        }),
{
    assert forall|i: int| 1 <= i < first implies !StopSet::Ws.stops(#[trigger] bytes[i]) by {
        assert(white(bytes[i]));
    }
    crate::byte_scan::lemma_run_end_is(bytes, 1, StopSet::Ws, first);
}

/// Every in-range element is provable where each of them is sure to be read and the walk gets past each, in an array with no
/// comma in front of its closing bracket.
pub proof fn lemma_sure_elements_are_provable(
    bytes: Seq<u8>,
    pos: int,
    index: int,
    limits: (u64, Option<u64>),
    law: FirstByteLaw,
)
    requires
        0 <= pos < bytes.len() <= usize::MAX,
        0 <= index,
        bytes[pos] != 0x5d,
        forall|k: nat|
            (#[trigger] walked(bytes, pos, k) matches Some(at) && bytes[at] != 0x5d && (k == 0 || !past_window(
                index + k,
                limits,
            ))) ==> (in_window(index + k, limits) ==> law.covers(bytes, walked(bytes, pos, k)->0)) && (past_window(
                index + k + 1,
                limits,
            ) || stepped(bytes, walked(bytes, pos, k)->0) is Some),
        forall|k: nat|
            (#[trigger] walked(bytes, pos, k) matches Some(at) && bytes[at] != 0x5d && after_element(
                bytes,
                value_end(bytes, at),
            ) is Next) ==> bytes[stepped(bytes, walked(bytes, pos, k)->0)->0] != 0x5d,
    ensures
        provable_from(bytes, pos, index, limits, law),
    decreases bytes.len() - pos,
{
    assert(walked(bytes, pos, 0) == Some(pos));
    lemma_value_end(bytes, pos);
    let end = value_end(bytes, pos);
    lemma_after_element(bytes, end);
    if !past_window(index + 1, limits) {
        if let AfterElement::Next(next) = after_element(bytes, end) {
            lemma_walk_moves_forward(bytes, pos, 1);
            assert(stepped(bytes, pos) == Some(next as int));
            assert(walked(bytes, pos, 1) == Some(next as int));
            if bytes[next as int] != 0x5d {
                assert forall|k: nat|
                    (#[trigger] walked(bytes, next as int, k) matches Some(at) && bytes[at] != 0x5d && after_element(
                        bytes,
                        value_end(bytes, at),
                    ) is Next) implies bytes[stepped(bytes, walked(bytes, next as int, k)->0)->0] != 0x5d by {
                    lemma_batches_lose_nothing(bytes, pos, 1, k);
                    assert(walked(bytes, pos, 1 + k) == walked(bytes, next as int, k));
                }
                assert forall|k: nat|
                    (#[trigger] walked(bytes, next as int, k) matches Some(at) && bytes[at] != 0x5d && (k == 0
                        || !past_window(index + 1 + k, limits))) implies (in_window(index + 1 + k, limits)
                    ==> law.covers(bytes, walked(bytes, next as int, k)->0)) && (past_window(index + 1 + k + 1, limits)
                    || stepped(bytes, walked(bytes, next as int, k)->0) is Some) by {
                    lemma_batches_lose_nothing(bytes, pos, 1, k);
                    assert(walked(bytes, pos, 1 + k) == walked(bytes, next as int, k));
                }
                lemma_sure_elements_are_provable(bytes, next as int, index + 1, limits, law);
            }
        }
    }
}

} // verus!
