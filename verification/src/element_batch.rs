//! Iterating an array span's elements in bounded batches.
//!
//! An element walk never builds the whole container: it cuts the in-range elements into batches, each the text of one
//! bracketed array, so that a batch is read back in one parse. Before a demand that publishes as it goes, every in-range
//! element must be provable, so that nothing is published and then declined.

use vstd::prelude::*;

use crate::ascii::{CLOSE_BRACKET, COMMA, LOWER_N, OPEN_BRACE, OPEN_BRACKET};

use crate::byte_scan::{lemma_run_end, run_end, StopSet};
use crate::lazy::{
    after_element, in_window, lemma_after_element, lemma_value_end, null_at, past_window, skip_value, spells_null,
    skip_ws, span_limits, step_over, value_end, window, AfterElement, CountStep,
};

verus! {

/// The most elements one batch holds.
pub const ELEMENT_BATCH_LEN: usize = 256;

/// The batch's byte budget; a batch stops growing past it regardless of element count.
pub const ELEMENT_BATCH_BYTES: usize = 65536;

/// What is read of each element.
#[derive(Debug)]
pub enum ElementProbe {
    /// The value at a path into the element.
    Path(Vec<CountStep>),
    /// The element's length.
    Length,
}

/// Who asks for the elements.
#[derive(Clone, Copy, Debug, PartialEq, Eq, Structural)]
pub enum ElementRow {
    /// A demand that publishes each element as it comes.
    FanOut,
    /// A fold, which publishes nothing until it completes.
    ReduceFold,
}

/// The elements that a probe is sure to read, by their first byte.
#[derive(Clone, Copy, Debug, PartialEq, Eq, Structural)]
pub enum FirstByteLaw {
    /// Every element.
    Any,
    /// An object, or null.
    ObjectOrNull,
    /// An array, or null.
    ArrayOrNull,
    /// A container, or null.
    ContainerOrNull,
}

impl FirstByteLaw {
    /// Whether `byte` starts an element that is sure to be read. An `n` does where it starts a null.
    pub open spec fn holds(self, byte: u8) -> bool {
        match self {
            FirstByteLaw::Any => true,
            FirstByteLaw::ObjectOrNull => byte == OPEN_BRACE || byte == LOWER_N,
            FirstByteLaw::ArrayOrNull => byte == OPEN_BRACKET || byte == LOWER_N,
            FirstByteLaw::ContainerOrNull => byte == OPEN_BRACKET || byte == OPEN_BRACE || byte == LOWER_N,
        }
    }

    /// Whether `byte` starts an element that is sure to be read. An `n` does where it starts a null.
    pub fn proves(self, byte: u8) -> (sure: bool)
        ensures
            sure == self.holds(byte),
    {
        match self {
            FirstByteLaw::Any => true,
            FirstByteLaw::ObjectOrNull => byte == OPEN_BRACE || byte == LOWER_N,
            FirstByteLaw::ArrayOrNull => byte == OPEN_BRACKET || byte == LOWER_N,
            FirstByteLaw::ContainerOrNull => byte == OPEN_BRACKET || byte == OPEN_BRACE || byte == LOWER_N,
        }
    }

    /// Whether the element at `pos` is sure to be read: its first byte says so and, where that is an `n` and not every
    /// element is read, it is a null and no non-finite number.
    pub open spec fn covers(self, bytes: Seq<u8>, pos: int) -> bool {
        self.holds(bytes[pos]) && (self == FirstByteLaw::Any || bytes[pos] != LOWER_N || null_at(bytes, pos))
    }

    /// Whether the element at `pos` is sure to be read.
    pub fn covers_element(self, bytes: &[u8], pos: usize) -> (sure: bool)
        requires
            pos < bytes.len(),
        ensures
            sure == self.covers(bytes@, pos as int),
    {
        self.proves(bytes[pos]) && (self == FirstByteLaw::Any || bytes[pos] != LOWER_N || spells_null(bytes, pos))
    }
}

/// The first-byte law of a probe; a path of more than one step has none.
pub open spec fn first_byte_law(probe: ElementProbe) -> Option<FirstByteLaw> {
    match probe {
        ElementProbe::Path(path) => if path@.len() == 0 {
            Some(FirstByteLaw::Any)
        } else if path@.len() == 1 {
            match path@[0] {
                CountStep::ObjectKey(_) => Some(FirstByteLaw::ObjectOrNull),
                CountStep::ArrayIndex(_) => Some(FirstByteLaw::ArrayOrNull),
            }
        } else {
            None
        },
        ElementProbe::Length => Some(FirstByteLaw::ContainerOrNull),
    }
}

/// The probe's per-element first-byte law, or `None` for a path of MORE than one step: the first byte decides only the
/// element's own category, not the categories a deeper step would address. A `null` element is total over every probe; a
/// container element is total over a first-step domain matching its own kind.
pub fn fan_out_first_byte_provable(probe: &ElementProbe) -> (law: Option<FirstByteLaw>)
    ensures
        law == first_byte_law(*probe),
{
    match probe {
        ElementProbe::Path(path) => {
            if path.len() == 0 {
                Some(FirstByteLaw::Any)
            } else if path.len() == 1 {
                match &path[0] {
                    CountStep::ObjectKey(_) => Some(FirstByteLaw::ObjectOrNull),
                    CountStep::ArrayIndex(_) => Some(FirstByteLaw::ArrayOrNull),
                }
            } else {
                None
            }
        }
        ElementProbe::Length => Some(FirstByteLaw::ContainerOrNull),
    }
}

/// Whether every in-range element from the one at `pos` with ordinal `index` on is provable, up to the array's end or the
/// window's. A walk that breaks off proves nothing.
pub open spec fn provable_from(
    bytes: Seq<u8>,
    pos: int,
    index: int,
    limits: (u64, Option<u64>),
    law: FirstByteLaw,
) -> bool
    decreases bytes.len() - pos,
    when 0 <= pos < bytes.len() <= usize::MAX
    via provable_from_decreases
{
    &&& in_window(index, limits) ==> law.covers(bytes, pos)
    &&& past_window(index + 1, limits) || match after_element(bytes, value_end(bytes, pos)) {
        AfterElement::Next(next) => provable_from(bytes, next as int, index + 1, limits, law),
        AfterElement::Close(_) => true,
        AfterElement::Broken => false,
    }
}

#[via_fn]
proof fn provable_from_decreases(bytes: Seq<u8>, pos: int, index: int, limits: (u64, Option<u64>), law: FirstByteLaw) {
    lemma_value_end(bytes, pos);
    lemma_after_element(bytes, value_end(bytes, pos));
}

/// Whether every in-range element from `pos` on is provable: a scan that visits nothing.
pub fn every_element_provable(bytes: &[u8], pos: usize, limits: (u64, Option<u64>), law: FirstByteLaw) -> (provable:
    bool)
    requires
        pos < bytes.len(),
    ensures
        provable == provable_from(bytes@, pos as int, 0, limits, law),
{
    let mut scan: usize = pos;
    let mut index: u64 = 0;
    loop
        invariant
            scan < bytes.len(),
            index <= scan,
            provable_from(bytes@, pos as int, 0, limits, law) == provable_from(
                bytes@,
                scan as int,
                index as int,
                limits,
                law,
            ),
        decreases bytes.len() - scan,
    {
        let in_range = index >= limits.0 && match limits.1 {
            Some(end) => index < end,
            None => true,
        };
        if in_range && !law.covers_element(bytes, scan) {
            return false;
        }
        let end = skip_value(bytes, scan);
        index += 1;
        if let Some(last) = limits.1 {
            if index >= last {
                return true;
            }
        }
        match step_over(bytes, end) {
            AfterElement::Next(next) => scan = next,
            AfterElement::Close(_) => return true,
            AfterElement::Broken => return false,
        }
    }
}

/// How an array span's elements are visited.
#[derive(Clone, Copy, Debug, PartialEq, Eq, Structural)]
pub enum VisitPlan {
    /// There are none.
    Empty,
    /// The walk cannot serve the demand.
    Decline,
    /// Check every in-range element's probe in a pass of its own, then visit from this position.
    CheckThenVisit(usize),
    /// Visit from this position.
    Visit(usize),
}

/// How an array span's elements are visited: a demand that publishes as it goes is served only where every in-range
/// element is provable first, by its first byte or, for a deeper probe, by a pass that builds each element and visits
/// nothing.
pub open spec fn planned_visit(
    bytes: Seq<u8>,
    row: ElementRow,
    range: Option<(Option<i64>, Option<i64>)>,
    probe: ElementProbe,
) -> VisitPlan {
    let pos = run_end(bytes, 1, StopSet::Ws);
    if pos >= bytes.len() || bytes[pos] == CLOSE_BRACKET {
        VisitPlan::Empty
    } else {
        match (row, first_byte_law(probe)) {
            (ElementRow::ReduceFold, _) => VisitPlan::Visit(pos as usize),
            (ElementRow::FanOut, None) => VisitPlan::CheckThenVisit(pos as usize),
            (ElementRow::FanOut, Some(law)) => if provable_from(bytes, pos, 0, window(range), law) {
                VisitPlan::Visit(pos as usize)
            } else {
                VisitPlan::Decline
            },
        }
    }
}

/// Plans the visit of an ARRAY span's elements.
pub fn visit_array_span(
    bytes: &[u8],
    row: ElementRow,
    range: Option<(Option<i64>, Option<i64>)>,
    probe: &ElementProbe,
) -> (plan: VisitPlan)
    requires
        bytes.len() > 0,
    ensures
        plan == planned_visit(bytes@, row, range, *probe),
{
    // The span starts with `[`; walk past it and the leading whitespace.
    let pos = skip_ws(bytes, 1);
    if pos >= bytes.len() || bytes[pos] == CLOSE_BRACKET {
        return VisitPlan::Empty;
    }
    match row {
        ElementRow::ReduceFold => VisitPlan::Visit(pos),
        ElementRow::FanOut => match fan_out_first_byte_provable(probe) {
            None => VisitPlan::CheckThenVisit(pos),
            Some(law) => if every_element_provable(bytes, pos, span_limits(range), law) {
                VisitPlan::Visit(pos)
            } else {
                VisitPlan::Decline
            },
        },
    }
}

/// Where the walk stands after the element at `pos`: at the next element, or at the closing bracket.
pub open spec fn stepped(bytes: Seq<u8>, pos: int) -> Option<int> {
    if !(0 <= pos < bytes.len()) || bytes[pos] == CLOSE_BRACKET {
        None
    } else {
        match after_element(bytes, value_end(bytes, pos)) {
            AfterElement::Next(next) => Some(next as int),
            AfterElement::Close(close) => Some(close as int),
            AfterElement::Broken => None,
        }
    }
}

/// Where the walk stands `count` elements past `pos`; `None` where it breaks off, or ends, before.
pub open spec fn walked(bytes: Seq<u8>, pos: int, count: nat) -> Option<int>
    decreases count,
{
    if count == 0 {
        Some(pos)
    } else {
        match walked(bytes, pos, (count - 1) as nat) {
            Some(at) => stepped(bytes, at),
            None => None,
        }
    }
}

/// The first `count` elements from `pos` on, each with a comma behind it.
pub open spec fn listed(bytes: Seq<u8>, pos: int, count: nat) -> Seq<u8>
    decreases count,
{
    if count == 0 {
        seq![]
    } else {
        match walked(bytes, pos, (count - 1) as nat) {
            Some(at) => listed(bytes, pos, (count - 1) as nat) + bytes.subrange(at, value_end(bytes, at)).push(COMMA),
            None => listed(bytes, pos, (count - 1) as nat),
        }
    }
}

/// Whether the walk stands at the closing bracket `count` elements past `pos`.
pub open spec fn closed(bytes: Seq<u8>, pos: int, count: nat) -> bool {
    walked(bytes, pos, count) matches Some(at) && 0 <= at < bytes.len() && bytes[at] == CLOSE_BRACKET
}

/// Whether a batch of `count` elements from `pos` on takes no more: it has the width, or its byte budget is spent.
pub open spec fn full(bytes: Seq<u8>, pos: int, count: nat, width: nat) -> bool {
    count >= width || 1 + listed(bytes, pos, count).len() >= ELEMENT_BATCH_BYTES
}

/// How many elements a batch may take from element `index` on.
pub open spec fn batch_width(index: int, limit: Option<u64>) -> nat {
    match limit {
        Some(end) => if end <= index {
            0
        } else if end - index < ELEMENT_BATCH_LEN {
            (end - index) as nat
        } else {
            ELEMENT_BATCH_LEN as nat
        },
        None => ELEMENT_BATCH_LEN as nat,
    }
}

/// The array text of one batch.
pub open spec fn batch_text(bytes: Seq<u8>, pos: int, count: nat) -> Seq<u8> {
    seq![OPEN_BRACKET] + listed(bytes, pos, count).drop_last() + seq![CLOSE_BRACKET]
}

/// Whether a batch of `count` elements from `pos` on takes one more: it is not full, and the array goes on.
pub open spec fn open_batch(bytes: Seq<u8>, pos: int, count: nat, width: nat) -> bool {
    !full(bytes, pos, count, width) && !closed(bytes, pos, count)
}

/// Whether the batch from `pos` on is its first `count` elements, up to `next`: every shorter batch takes one more, and
/// this one does not.
pub open spec fn is_batch(bytes: Seq<u8>, pos: int, width: nat, count: nat, next: int) -> bool {
    &&& 0 < count <= width
    &&& walked(bytes, pos, count) == Some(next)
    &&& !open_batch(bytes, pos, count, width)
    &&& forall|k: nat| k < count ==> #[trigger] open_batch(bytes, pos, k, width)
}

/// Whether the walk breaks off before the batch from `pos` on is complete.
pub open spec fn batch_breaks(bytes: Seq<u8>, pos: int, width: nat) -> bool {
    exists|count: nat|
        {
            &&& walked(bytes, pos, count) is Some
            &&& walked(bytes, pos, count + 1) is None
            &&& #[trigger] open_batch(bytes, pos, count, width)
            &&& forall|k: nat| k < count ==> #[trigger] open_batch(bytes, pos, k, width)
        }
}

/// One step of the batch pass.
#[derive(Debug)]
pub enum BatchStep {
    /// The next batch: its array text, how many elements it holds, and where the walk stands behind it.
    Batch { text: Vec<u8>, count: usize, next: usize },
    /// No in-range element is left.
    Done,
    /// The walk breaks off.
    Decline,
}

/// Cuts the next batch: the elements from `pos` on, up to the window's end, the batch's element cap, its byte budget or
/// the closing bracket, whichever comes first.
pub fn next_batch(bytes: &[u8], pos: usize, index: u64, limit: Option<u64>) -> (step: BatchStep)
    requires
        pos < bytes.len(),
    ensures
        match step {
            BatchStep::Batch { text, count, next } => {
                &&& pos < next < bytes.len()
                &&& is_batch(bytes@, pos as int, batch_width(index as int, limit), count as nat, next as int)
                &&& text@ == batch_text(bytes@, pos as int, count as nat)
            },
            BatchStep::Done => batch_width(index as int, limit) == 0 || bytes@[pos as int] == CLOSE_BRACKET,
            BatchStep::Decline => batch_breaks(bytes@, pos as int, batch_width(index as int, limit)),
        },
{
    let width: usize = match limit {
        Some(end) => if end <= index {
            0
        } else if end - index < ELEMENT_BATCH_LEN as u64 {
            (end - index) as usize
        } else {
            ELEMENT_BATCH_LEN
        },
        None => ELEMENT_BATCH_LEN,
    };
    assert(width == batch_width(index as int, limit));
    let mut text: Vec<u8> = Vec::new();
    text.push(OPEN_BRACKET);
    let mut at: usize = pos;
    let mut count: usize = 0;
    assert(text@ =~= seq![OPEN_BRACKET] + listed(bytes@, pos as int, 0));
    while count < width && text.len() < ELEMENT_BATCH_BYTES
        invariant
            forall|k: nat| k < count ==> #[trigger] open_batch(bytes@, pos as int, k, width as nat),
            count <= width <= ELEMENT_BATCH_LEN,
            at < bytes.len(),
            count == 0 ==> at == pos,
            count > 0 ==> pos < at,
            width == batch_width(index as int, limit),
            walked(bytes@, pos as int, count as nat) == Some(at as int),
            text@ == seq![OPEN_BRACKET] + listed(bytes@, pos as int, count as nat),
            count > 0 ==> text.len() > 1,
        ensures
            !open_batch(bytes@, pos as int, count as nat, width as nat),
        decreases width - count,
    {
        if bytes[at] == CLOSE_BRACKET {
            break;
        }
        let end = skip_value(bytes, at);
        let ghost before = text@;
        let after = step_over(bytes, end);
        let next = match after {
            AfterElement::Next(next) => next,
            AfterElement::Close(close) => close,
            AfterElement::Broken => {
                assert(walked(bytes@, pos as int, count as nat + 1) is None);
                assert(open_batch(bytes@, pos as int, count as nat, width as nat));
                return BatchStep::Decline;
            }
        };
        crate::encode_text::push_range(&mut text, bytes, at, end);
        text.push(COMMA);
        assert(text@ =~= before + bytes@.subrange(at as int, end as int).push(COMMA));
        assert(text@ =~= seq![OPEN_BRACKET] + (listed(bytes@, pos as int, count as nat) + bytes@.subrange(
            at as int,
            end as int,
        ).push(COMMA)));
        count += 1;
        at = next;
        assert(walked(bytes@, pos as int, count as nat) == Some(at as int));
    }
    if count == 0 {
        return BatchStep::Done;
    }
    // Drop the trailing comma and close the batch.
    text.pop();
    text.push(CLOSE_BRACKET);
    assert(text@ =~= batch_text(bytes@, pos as int, count as nat));
    BatchStep::Batch { text, count, next: at }
}

/// Where skipping elements ends.
#[derive(Clone, Copy, Debug, PartialEq, Eq, Structural)]
pub enum Skipped {
    /// At this position, all of them skipped.
    At(usize),
    /// At the closing bracket: the array is shorter.
    Short,
    /// Nowhere: the walk breaks off.
    Decline,
}

/// Where the walk stands after skipping `skip` elements from `pos` on.
pub open spec fn skipped(bytes: Seq<u8>, pos: int, skip: nat) -> Skipped
    decreases skip,
{
    if skip == 0 {
        Skipped::At(pos as usize)
    } else if !(0 <= pos < bytes.len()) {
        Skipped::Decline
    } else if bytes[pos] == CLOSE_BRACKET {
        Skipped::Short
    } else {
        match stepped(bytes, pos) {
            Some(next) => skipped(bytes, next, (skip - 1) as nat),
            None => Skipped::Decline,
        }
    }
}

/// Skips the out-of-range elements: pure byte skips, whatever the elements are.
pub fn skip_elements(bytes: &[u8], pos: usize, skip: u64) -> (end: Skipped)
    requires
        pos < bytes.len(),
    ensures
        end == skipped(bytes@, pos as int, skip as nat),
        end matches Skipped::At(at) ==> pos <= at < bytes.len() && walked(bytes@, pos as int, skip as nat) == Some(
            at as int,
        ),
{
    let mut at: usize = pos;
    let mut left: u64 = skip;
    while left > 0
        invariant
            pos <= at < bytes.len(),
            left <= skip,
            walked(bytes@, pos as int, (skip - left) as nat) == Some(at as int),
            skipped(bytes@, pos as int, skip as nat) == skipped(bytes@, at as int, left as nat),
        decreases left,
    {
        if bytes[at] == CLOSE_BRACKET {
            return Skipped::Short;
        }
        let end = skip_value(bytes, at);
        let ghost passed = (skip - left) as nat;
        match step_over(bytes, end) {
            AfterElement::Next(next) => at = next,
            AfterElement::Close(close) => at = close,
            AfterElement::Broken => return Skipped::Decline,
        }
        left -= 1;
        assert(walked(bytes@, pos as int, passed + 1) == Some(at as int));
    }
    Skipped::At(at)
}

/// What a batch pass over an array span has done so far.
#[derive(Clone, Copy, Debug, PartialEq, Eq, Structural)]
pub struct ElementWalk {
    /// Where the walk stands.
    pub pos: usize,
    /// The ordinal of the element there.
    pub index: u64,
    /// One past the last in-range ordinal.
    pub limit: Option<u64>,
    /// How many elements were handed out.
    pub visited: u64,
}

/// What a batch pass has to do next.
#[derive(Debug)]
pub enum WalkStep {
    /// Read this batch back and visit its elements.
    Batch(Vec<u8>),
    /// Every in-range element was handed out; this many.
    Completed(u64),
    /// The walk breaks off.
    Decline,
}

impl ElementWalk {
    /// Whether the walk stands inside `bytes`, with no more elements behind it than bytes.
    pub open spec fn inside(self, bytes: Seq<u8>) -> bool {
        self.pos < bytes.len() && self.visited <= self.index <= self.pos
    }

    /// Whether the walk stands where its ordinal says, counted from the array's first element at `pos`.
    pub open spec fn reached(self, bytes: Seq<u8>, pos: int) -> bool {
        walked(bytes, pos, self.index as nat) == Some(self.pos as int)
    }
}

/// Starts the batch pass at the element at `pos`: past the out-of-range elements. A container shorter than the range's
/// start completes with nothing visited, and a walk that breaks off declines.
pub fn start_walk(bytes: &[u8], pos: usize, range: Option<(Option<i64>, Option<i64>)>) -> (walk: Result<
    ElementWalk,
    WalkStep,
>)
    requires
        0 < pos < bytes.len(),
    ensures
        match skipped(bytes@, pos as int, window(range).0 as nat) {
            Skipped::At(at) => walk == Ok::<ElementWalk, WalkStep>(
                ElementWalk { pos: at, index: window(range).0, limit: window(range).1, visited: 0 },
            ) && walk->Ok_0.inside(bytes@) && walk->Ok_0.reached(bytes@, pos as int),
            Skipped::Short => walk == Err::<ElementWalk, WalkStep>(WalkStep::Completed(0)),
            Skipped::Decline => walk == Err::<ElementWalk, WalkStep>(WalkStep::Decline),
        },
{
    let (skip, limit) = span_limits(range);
    match skip_elements(bytes, pos, skip) {
        Skipped::At(at) => {
            proof {
                lemma_walk_moves_forward(bytes@, pos as int, skip as nat);
            }
            Ok(ElementWalk { pos: at, index: skip, limit, visited: 0 })
        }
        Skipped::Short => Err(WalkStep::Completed(0)),
        Skipped::Decline => Err(WalkStep::Decline),
    }
}

/// One step of the batch pass: cuts the next batch and moves the walk behind it, or says how the pass ends. A batch is
/// never visited in part, so the elements handed out are the elements visited.
pub fn run_batches(bytes: &[u8], walk: &mut ElementWalk) -> (step: WalkStep)
    requires
        old(walk).inside(bytes@),
    ensures
        final(walk).inside(bytes@),
        final(walk).limit == old(walk).limit,
        forall|pos: int| #[trigger] old(walk).reached(bytes@, pos) ==> final(walk).reached(bytes@, pos),
        ({
            let width = batch_width(old(walk).index as int, old(walk).limit);
            match step {
                WalkStep::Batch(text) => {
                    let count = (final(walk).index - old(walk).index) as nat;
                    &&& old(walk).index < final(walk).index
                    &&& final(walk).visited == old(walk).visited + count
                    &&& is_batch(bytes@, old(walk).pos as int, width, count, final(walk).pos as int)
                    &&& text@ == batch_text(bytes@, old(walk).pos as int, count)
                },
                WalkStep::Completed(visited) => {
                    &&& *final(walk) == *old(walk)
                    &&& visited == old(walk).visited
                    &&& width == 0 || bytes@[old(walk).pos as int] == CLOSE_BRACKET
                },
                WalkStep::Decline => {
                    &&& *final(walk) == *old(walk)
                    &&& batch_breaks(bytes@, old(walk).pos as int, width)
                },
            }
        }),
{
    match next_batch(bytes, walk.pos, walk.index, walk.limit) {
        BatchStep::Batch { text, count, next } => {
            proof {
                lemma_walk_moves_forward(bytes@, walk.pos as int, count as nat);
            }
            let ghost before = *walk;
            walk.pos = next;
            walk.index = walk.index + count as u64;
            walk.visited = walk.visited + count as u64;
            proof {
                assert forall|pos: int| #[trigger] before.reached(bytes@, pos) implies walk.reached(bytes@, pos) by {
                    lemma_batch_keeps_the_walk(bytes@, pos, before, *walk, batch_width(before.index as int, before.limit));
                }
            }
            WalkStep::Batch(text)
        }
        BatchStep::Done => WalkStep::Completed(walk.visited),
        BatchStep::Decline => WalkStep::Decline,
    }
}

/// A walk that takes a step moves forward.
proof fn lemma_step_moves_forward(bytes: Seq<u8>, pos: int)
    requires
        0 <= pos,
        bytes.len() <= usize::MAX,
    ensures
        stepped(bytes, pos) matches Some(next) ==> pos < next < bytes.len(),
{
    if pos < bytes.len() && bytes[pos] != CLOSE_BRACKET {
        lemma_value_end(bytes, pos);
        let end = value_end(bytes, pos);
        lemma_after_element(bytes, end);
        lemma_run_end(bytes, end, StopSet::Ws);
    }
}

/// A walk over `count` elements moves forward by at least as many bytes.
pub proof fn lemma_walk_moves_forward(bytes: Seq<u8>, pos: int, count: nat)
    requires
        0 <= pos,
        bytes.len() <= usize::MAX,
    ensures
        walked(bytes, pos, count) matches Some(at) ==> pos + count <= at && (count > 0 ==> at < bytes.len()),
    decreases count,
{
    if count > 0 {
        lemma_walk_moves_forward(bytes, pos, (count - 1) as nat);
        if let Some(at) = walked(bytes, pos, (count - 1) as nat) {
            lemma_step_moves_forward(bytes, at);
        }
    }
}

/// A walk that gets as far as `count` elements gets as far as any fewer.
proof fn lemma_walk_has_prefixes(bytes: Seq<u8>, pos: int, first: nat, count: nat)
    requires
        first <= count,
        walked(bytes, pos, count) is Some,
    ensures
        walked(bytes, pos, first) is Some,
    decreases count,
{
    if first < count {
        lemma_walk_has_prefixes(bytes, pos, first, (count - 1) as nat);
    }
}

/// A fan-out that visits at once reads every element it is handed: where every in-range element is provable, the element
/// `count` elements into the array is, if it is in range, and the walk goes on behind it up to the window's end. So
/// nothing is published and then declined.
pub proof fn lemma_provable_elements_are_read(
    bytes: Seq<u8>,
    pos: int,
    index: int,
    limits: (u64, Option<u64>),
    law: FirstByteLaw,
    count: nat,
)
    requires
        0 <= pos < bytes.len() <= usize::MAX,
        0 <= index,
        provable_from(bytes, pos, index, limits, law),
        !past_window(index + count, limits),
        walked(bytes, pos, count) matches Some(at) && bytes[at] != CLOSE_BRACKET,
    ensures
        ({
            let at = walked(bytes, pos, count)->0;
            &&& in_window(index + count, limits) ==> law.covers(bytes, at)
            &&& past_window(index + count + 1, limits) || stepped(bytes, at) is Some
        }),
    decreases count,
{
    lemma_value_end(bytes, pos);
    lemma_after_element(bytes, value_end(bytes, pos));
    if count > 0 {
        let rest = (count - 1) as nat;
        lemma_walk_has_prefixes(bytes, pos, 1, count);
        assert(walked(bytes, pos, 0) == Some(pos));
        lemma_batches_lose_nothing(bytes, pos, 1, rest);
        let next = stepped(bytes, pos)->0;
        assert(walked(bytes, pos, 1) == Some(next));
        if rest > 0 {
            lemma_walk_has_prefixes(bytes, next, 1, rest);
            assert(walked(bytes, next, 0) == Some(next));
        }
        lemma_run_end(bytes, value_end(bytes, pos), StopSet::Ws);
        lemma_provable_elements_are_read(bytes, next, index + 1, limits, law, rest);
    }
}

/// Whether what follows the last in-range element, if the array has one, is a comma or the closing bracket, as it is in
/// every JSON array.
pub open spec fn window_ends_whole(bytes: Seq<u8>, pos: int, limits: (u64, Option<u64>)) -> bool {
    limits.1 matches Some(end) ==> end > 0 ==> (walked(bytes, pos, (end - 1) as nat) matches Some(last) ==> bytes[last]
        == CLOSE_BRACKET || stepped(bytes, last) is Some)
}

/// A fan-out visits all in-range elements or none: once it is planned to visit at once and its walk has started, the walk
/// never breaks off, so no batch declines behind one that was visited; and every element of the coming batch is sure to
/// be read. The one array left out has something else than a comma or the closing bracket behind its last in-range
/// element.
pub proof fn lemma_fan_out_visits_all_or_none(
    bytes: Seq<u8>,
    range: Option<(Option<i64>, Option<i64>)>,
    probe: ElementProbe,
    pos: usize,
    walk: ElementWalk,
)
    requires
        0 < bytes.len() <= usize::MAX,
        planned_visit(bytes, ElementRow::FanOut, range, probe) == VisitPlan::Visit(pos),
        window_ends_whole(bytes, pos as int, window(range)),
        walk.inside(bytes),
        walk.reached(bytes, pos as int),
        walk.limit == window(range).1,
        walk.index >= window(range).0,
    ensures
        !batch_breaks(bytes, walk.pos as int, batch_width(walk.index as int, walk.limit)),
        forall|count: nat|
            count < batch_width(walk.index as int, walk.limit) ==> (#[trigger] walked(bytes, walk.pos as int, count) matches Some(
                at,
            ) ==> bytes[at] == CLOSE_BRACKET || first_byte_law(probe)->0.covers(bytes, at)),
{
    let limits = window(range);
    let law = first_byte_law(probe)->0;
    let width = batch_width(walk.index as int, walk.limit);
    lemma_run_end(bytes, 1, StopSet::Ws);
    assert(pos < bytes.len());
    assert forall|count: nat| count < width implies (#[trigger] walked(bytes, walk.pos as int, count) matches Some(at)
        ==> bytes[at] == CLOSE_BRACKET || (law.covers(bytes, at) && stepped(bytes, at) is Some)) by {
        if let Some(at) = walked(bytes, walk.pos as int, count) {
            let whole = walk.index as nat + count;
            lemma_batches_lose_nothing(bytes, pos as int, walk.index as nat, count);
            if bytes[at] != CLOSE_BRACKET {
                lemma_provable_elements_are_read(bytes, pos as int, 0, limits, law, whole);
                if past_window(whole as int + 1, limits) {
                    assert(whole == (limits.1->0 - 1) as nat);
                }
            }
        }
    }
    if batch_breaks(bytes, walk.pos as int, width) {
        let count = choose|count: nat|
            {
                &&& walked(bytes, walk.pos as int, count) is Some
                &&& walked(bytes, walk.pos as int, count + 1) is None
                &&& #[trigger] open_batch(bytes, walk.pos as int, count, width)
                &&& forall|k: nat| k < count ==> #[trigger] open_batch(bytes, walk.pos as int, k, width)
            };
        lemma_walk_moves_forward(bytes, walk.pos as int, count);
        let at = walked(bytes, walk.pos as int, count)->0;
        assert(stepped(bytes, at) is Some);
        assert(walked(bytes, walk.pos as int, count + 1) == stepped(bytes, at));
    }
}

/// A batch leaves the walk where its ordinal says.
proof fn lemma_batch_keeps_the_walk(bytes: Seq<u8>, pos: int, before: ElementWalk, after: ElementWalk, width: nat)
    requires
        before.reached(bytes, pos),
        before.index <= after.index,
        is_batch(bytes, before.pos as int, width, (after.index - before.index) as nat, after.pos as int),
    ensures
        after.reached(bytes, pos),
{
    lemma_batches_lose_nothing(bytes, pos, before.index as nat, (after.index - before.index) as nat);
}

/// Walking on from where a walk stands is one longer walk: the batches of an array, one behind the other, hold its
/// elements in order, with none lost and none twice.
pub proof fn lemma_batches_lose_nothing(bytes: Seq<u8>, pos: int, first: nat, second: nat)
    requires
        walked(bytes, pos, first) is Some,
    ensures
        walked(bytes, pos, first + second) == walked(bytes, walked(bytes, pos, first)->0, second),
        listed(bytes, pos, first + second) == listed(bytes, pos, first) + listed(
            bytes,
            walked(bytes, pos, first)->0,
            second,
        ),
    decreases second,
{
    let next = walked(bytes, pos, first)->0;
    if second == 0 {
        assert(listed(bytes, pos, first) + listed(bytes, next, 0) =~= listed(bytes, pos, first));
    } else {
        lemma_batches_lose_nothing(bytes, pos, first, (second - 1) as nat);
        assert((first + second - 1) as nat == first + (second - 1) as nat);
        if let Some(at) = walked(bytes, next, (second - 1) as nat) {
            let item = bytes.subrange(at, value_end(bytes, at)).push(COMMA);
            assert(listed(bytes, pos, first) + listed(bytes, next, (second - 1) as nat) + item =~= listed(
                bytes,
                pos,
                first,
            ) + (listed(bytes, next, (second - 1) as nat) + item));
        }
    }
}

} // verus!
