//! What framing makes of a stream, byte by byte: which lines are records, which are faults, and where the next one begins.

use vstd::prelude::*;

use crate::byte_scan::{line_end, StopSet};
use crate::lex::byte_order_mark;
use crate::ndjson::error::RecordIssueCode;
use crate::ndjson::stream::{
    entries, fault_of, issues_in, nth_outcome, outcome_of, position, records_in, unit_of, weight, NdjsonRecordSession,
    Outcome, PollStart, RecordBatchLimit, RecordEntry, RecordFailure, RecordIssueSeverity, RecordPoll,
};
use crate::options::NdjsonProfile;

verus! {

/// Whether `text` holds neither a line feed nor a carriage return.
pub open spec fn one_line(text: Seq<u8>) -> bool {
    forall|i: int| 0 <= i < text.len() ==> #[trigger] text[i] != 0x0a && text[i] != 0x0d
}

/// Whether `text` holds something other than spaces and tabs.
pub open spec fn holds_something(text: Seq<u8>) -> bool {
    exists|i: int| 0 <= i < text.len() && #[trigger] text[i] != 0x20 && text[i] != 0x09
}

/// Whether the line from `start` ends before `end`: no line feed or carriage return stands in it, and one stands at `end`,
/// or the input ends there.
pub open spec fn line_spans(bytes: Seq<u8>, start: int, end: int) -> bool {
    &&& 0 <= start <= end <= bytes.len()
    &&& start < bytes.len()
    &&& one_line(bytes.subrange(start, end))
    &&& end == bytes.len() || bytes[end] == 0x0a || bytes[end] == 0x0d
}

/// Whether the line that ends before `end` ends as a record may: with the input, with a line feed, or with a carriage
/// return and a line feed.
pub open spec fn well_ended(bytes: Seq<u8>, end: int) -> bool {
    ||| end == bytes.len()
    ||| bytes[end] == 0x0a
    ||| end + 1 < bytes.len() && bytes[end] == 0x0d && bytes[end + 1] == 0x0a
}

/// A record is the line it starts: its payload ends at the first line feed or carriage return, and the next record begins
/// just past the line feed, whether a carriage return comes before it, other bytes do, or none.
pub proof fn lemma_unit_is_its_line(bytes: Seq<u8>, start: int, end: int)
    requires
        line_spans(bytes, start, end),
        bytes.len() <= usize::MAX,
    ensures
        ({
            let unit = unit_of(bytes, start);
            let next = unit.physical_end as int;
            &&& unit.record_start == start
            &&& unit.payload_end == end
            &&& end <= next <= bytes.len()
            &&& forall|i: int| end <= i < next - 1 ==> #[trigger] bytes[i] != 0x0a
            &&& next == bytes.len() || (end < next && bytes[next - 1] == 0x0a)
            &&& end < bytes.len() && bytes[end] == 0x0a ==> next == end + 1
            &&& end + 1 < bytes.len() && bytes[end] == 0x0d && bytes[end + 1] == 0x0a ==> next == end + 2
        }),
{
    let line = bytes.subrange(start, end);
    assert forall|i: int| start <= i < end implies !StopSet::NdjsonFrame.stops(#[trigger] bytes[i]) by {
        assert(bytes[i] == line[i - start]);
    }
    crate::byte_scan::lemma_run_end_is(bytes, start, StopSet::NdjsonFrame, end);
    if end < bytes.len() {
        crate::byte_scan::lemma_line_end(bytes, end);
        lemma_line_end_is_first(bytes, end);
    }
}

/// A line's end is the first line feed.
proof fn lemma_line_end_is_first(bytes: Seq<u8>, from: int)
    requires
        0 <= from <= bytes.len(),
    ensures
        forall|i: int| from <= i < line_end(bytes, from) ==> #[trigger] bytes[i] != 0x0a,
        line_end(bytes, from) < bytes.len() ==> bytes[line_end(bytes, from)] == 0x0a,
    decreases bytes.len() - from,
{
    if from < bytes.len() && bytes[from] != 0x0a {
        lemma_line_end_is_first(bytes, from + 1);
    }
}

/// What a line comes to is read off its bytes alone. A line of nothing but spaces and tabs is blank, whatever ends it. Any
/// other line is too long past the ceiling, and is a record, with exactly its own bytes as its payload, where it ends as a
/// record may; a carriage return on its own is a fault where it stands. A fault stops a strict stream and is an entry of
/// a recovering one, and only a blank line weighs nothing.
pub proof fn lemma_line_comes_to_what_it_holds(
    bytes: Seq<u8>,
    base: u64,
    start: int,
    end: int,
    ordinal: u64,
    profile: NdjsonProfile,
    ceiling: u64,
)
    requires
        line_spans(bytes, start, end),
        bytes.len() <= usize::MAX,
    ensures
        ({
            let something = holds_something(bytes.subrange(start, end));
            let long = end - start > ceiling;
            let begin = vstd::math::min(base + start, u64::MAX as int);
            let next = unit_of(bytes, start).physical_end;
            let fault = if !something {
                Some((RecordIssueCode::BlankRecord, start))
            } else if long {
                Some((RecordIssueCode::OversizeRecord, start + ceiling))
            } else if !well_ended(bytes, end) {
                Some((RecordIssueCode::BareCarriageReturn, end))
            } else {
                None
            };
            match fault {
                None => outcome_of(bytes, base, start, ordinal, profile, ceiling) == Outcome::Entry(
                    RecordEntry::Record {
                        ordinal,
                        start: begin as u64,
                        end: vstd::math::min(base + next, u64::MAX as int) as u64,
                        payload_start: start as usize,
                        payload_end: end as usize,
                    },
                    end - start,
                ),
                Some((code, at)) => {
                    let offset = vstd::math::min(base + at, u64::MAX as int) as u64;
                    outcome_of(bytes, base, start, ordinal, profile, ceiling) == match profile {
                        NdjsonProfile::Strict => Outcome::Stop(
                            RecordFailure::Framing { code, record_start: begin as u64, offset },
                        ),
                        _ => Outcome::Entry(
                            RecordEntry::Issue {
                                ordinal,
                                severity: if something {
                                    RecordIssueSeverity::Error
                                } else {
                                    RecordIssueSeverity::Advisory
                                },
                                code,
                                offset,
                            },
                            0,
                        ),
                    }
                },
            }
        }),
{
    let line = bytes.subrange(start, end);
    lemma_unit_is_its_line(bytes, start, end);
    assert forall|i: int| start <= i < end implies !StopSet::NdjsonFrame.stops(#[trigger] bytes[i]) by {
        assert(bytes[i] == line[i - start]);
    }
    crate::byte_scan::lemma_run_end_is(bytes, start, StopSet::NdjsonFrame, end);
}

/// The fault of a record is a blank one exactly where every byte of its payload is a space or a tab, and a record has no
/// fault exactly where its line holds something else, fits the ceiling, and is ended by a line feed, with a carriage
/// return before it or without.
pub proof fn lemma_faults_are_what_is_wrong(bytes: Seq<u8>, start: int, end: int, ceiling: u64)
    requires
        line_spans(bytes, start, end),
        bytes.len() <= usize::MAX,
    ensures
        ({
            let fault = fault_of(bytes, start, ceiling);
            let blank = forall|i: int| start <= i < end ==> #[trigger] bytes[i] == 0x20 || bytes[i] == 0x09;
            &&& (fault matches Some(fault) && fault.code == RecordIssueCode::BlankRecord) <==> blank
            &&& (fault matches Some(fault) && fault.code == RecordIssueCode::BlankRecord) ==> fault->0.offset == start
            &&& fault is None <==> !blank && end - start <= ceiling && end < bytes.len() && well_ended(bytes, end)
        }),
{
    let line = bytes.subrange(start, end);
    let blank = forall|i: int| start <= i < end ==> #[trigger] bytes[i] == 0x20 || bytes[i] == 0x09;
    assert forall|i: int| start <= i < end implies #[trigger] bytes[i] == line[i - start] && !StopSet::NdjsonFrame.stops(
        bytes[i],
    ) by {
        assert(bytes[i] == line[i - start]);
    }
    crate::byte_scan::lemma_run_end_is(bytes, start, StopSet::NdjsonFrame, end);
    if blank {
        assert forall|i: int| 0 <= i < line.len() implies #[trigger] line[i] == 0x20 || line[i] == 0x09 by {
            assert(line[i] == bytes[start + i]);
        }
    } else {
        let at = choose|i: int| start <= i < end && !(#[trigger] bytes[i] == 0x20 || bytes[i] == 0x09);
        assert(line[at - start] == bytes[at]);
    }
}

/// A stream of lines, each behind its own line feed, or its own carriage return and line feed.
pub open spec fn lines_text(lines: Seq<Seq<u8>>, endings: Seq<bool>) -> Seq<u8>
    decreases lines.len(),
{
    if lines.len() == 0 {
        seq![]
    } else {
        let ending: Seq<u8> = if endings[lines.len() - 1] {
            seq![0x0d, 0x0a]
        } else {
            seq![0x0a]
        };
        lines_text(lines.drop_last(), endings) + lines.last() + ending
    }
}

/// Whether each of the lines is a record within the ceiling.
pub open spec fn record_lines(lines: Seq<Seq<u8>>, ceiling: u64) -> bool {
    forall|k: int|
        0 <= k < lines.len() ==> one_line(#[trigger] lines[k]) && holds_something(lines[k]) && lines[k].len() <= ceiling
}

proof fn lemma_lines_text_grows(lines: Seq<Seq<u8>>, endings: Seq<bool>, k: int)
    requires
        0 <= k < lines.len(),
    ensures
        ({
            let whole = lines_text(lines, endings);
            let at = lines_text(lines.take(k), endings).len() as int;
            let end = at + lines[k].len();
            let next = lines_text(lines.take(k + 1), endings).len() as int;
            &&& 0 <= at <= end < next <= whole.len()
            &&& whole.subrange(at, end) == lines[k]
            &&& if endings[k] {
                next == end + 2 && whole[end] == 0x0d && whole[end + 1] == 0x0a
            } else {
                next == end + 1 && whole[end] == 0x0a
            }
        }),
    decreases lines.len(),
{
    let whole = lines_text(lines, endings);
    let at = lines_text(lines.take(k), endings).len() as int;
    let end = at + lines[k].len();
    let head = lines.drop_last();
    let before = lines_text(head, endings);
    if k < lines.len() - 1 {
        lemma_lines_text_grows(head, endings, k);
        assert(head.take(k) =~= lines.take(k));
        assert(head.take(k + 1) =~= lines.take(k + 1));
        assert(whole.subrange(at, end) =~= before.subrange(at, end));
        assert(whole[end] == before[end]);
        if endings[k] {
            assert(whole[end + 1] == before[end + 1]);
        }
    } else {
        assert(head =~= lines.take(k));
        assert(lines.take(k + 1) =~= lines);
        assert(whole.subrange(at, end) =~= lines[k]);
    }
}

/// A stream of lines is framed into exactly those lines: record `k` begins where its line does, and its payload is the
/// line, without what ends it, whatever stands before the lines and behind them.
pub proof fn lemma_a_stream_of_lines_is_its_lines(
    before: Seq<u8>,
    lines: Seq<Seq<u8>>,
    endings: Seq<bool>,
    behind: Seq<u8>,
    base: u64,
    ordinal: u64,
    profile: NdjsonProfile,
    ceiling: u64,
    k: nat,
)
    requires
        record_lines(lines, ceiling),
        k <= lines.len(),
        (before + lines_text(lines, endings) + behind).len() <= usize::MAX,
        base + (before + lines_text(lines, endings) + behind).len() <= u64::MAX,
        ordinal + lines.len() <= u64::MAX,
    ensures
        ({
            let bytes = before + lines_text(lines, endings) + behind;
            let at = before.len() + lines_text(lines.take(k as int), endings).len();
            &&& position(bytes, before.len() as int, k) == at
            &&& k < lines.len() ==> {
                let end = at + lines[k as int].len();
                let next = before.len() + lines_text(lines.take(k + 1int), endings).len();
                &&& bytes.subrange(at as int, end as int) == lines[k as int]
                &&& nth_outcome(bytes, base, before.len() as int, ordinal, profile, ceiling, k) == Outcome::Entry(
                    RecordEntry::Record {
                        ordinal: (ordinal + k) as u64,
                        start: (base + at) as u64,
                        end: (base + next) as u64,
                        payload_start: at as usize,
                        payload_end: end as usize,
                    },
                    lines[k as int].len() as int,
                )
            }
        }),
    decreases k,
{
    let text = lines_text(lines, endings);
    let bytes = before + text + behind;
    let first = before.len() as int;
    let at = first + lines_text(lines.take(k as int), endings).len();
    if k > 0 {
        let j = (k - 1) as nat;
        lemma_a_stream_of_lines_is_its_lines(before, lines, endings, behind, base, ordinal, profile, ceiling, j);
        lemma_line_in_its_place(before, lines, endings, behind, j as int);
        let start = first + lines_text(lines.take(j as int), endings).len();
        lemma_unit_is_its_line(bytes, start, start + lines[j as int].len());
    } else {
        assert(lines.take(0) =~= Seq::<Seq<u8>>::empty());
    }
    if k < lines.len() {
        let end = at + lines[k as int].len();
        lemma_line_in_its_place(before, lines, endings, behind, k as int);
        lemma_line_comes_to_what_it_holds(bytes, base, at, end, (ordinal + k) as u64, profile, ceiling);
        lemma_unit_is_its_line(bytes, at, end);
    }
}

proof fn lemma_line_in_its_place(
    before: Seq<u8>,
    lines: Seq<Seq<u8>>,
    endings: Seq<bool>,
    behind: Seq<u8>,
    k: int,
)
    requires
        0 <= k < lines.len(),
        one_line(lines[k]),
    ensures
        ({
            let bytes = before + lines_text(lines, endings) + behind;
            let at = before.len() + lines_text(lines.take(k), endings).len() as int;
            let end = at + lines[k].len();
            let next = before.len() + lines_text(lines.take(k + 1), endings).len() as int;
            &&& line_spans(bytes, at, end)
            &&& bytes.subrange(at, end) == lines[k]
            &&& end < bytes.len()
            &&& if endings[k] {
                next == end + 2 && next <= bytes.len() && bytes[end] == 0x0d && bytes[end + 1] == 0x0a
            } else {
                next == end + 1 && bytes[end] == 0x0a
            }
        }),
{
    let text = lines_text(lines, endings);
    let bytes = before + text + behind;
    let own = lines_text(lines.take(k), endings).len() as int;
    lemma_lines_text_grows(lines, endings, k);
    let at = before.len() + own;
    let end = at + lines[k].len();
    assert(bytes.subrange(at, end) =~= text.subrange(own, own + lines[k].len()));
    assert(bytes[end] == text[own + lines[k].len()]);
    if endings[k] {
        assert(bytes[end + 1] == text[own + lines[k].len() + 1]);
    }
}

/// How many bytes the lines hold, without what ends them.
pub open spec fn lines_len(lines: Seq<Seq<u8>>) -> nat
    decreases lines.len(),
{
    if lines.len() == 0 {
        0
    } else {
        lines_len(lines.drop_last()) + lines.last().len()
    }
}

proof fn lemma_lines_weigh_their_bytes(
    before: Seq<u8>,
    lines: Seq<Seq<u8>>,
    endings: Seq<bool>,
    base: u64,
    ordinal: u64,
    profile: NdjsonProfile,
    ceiling: u64,
    n: nat,
)
    requires
        record_lines(lines, ceiling),
        n <= lines.len(),
        (before + lines_text(lines, endings)).len() <= usize::MAX,
        base + (before + lines_text(lines, endings)).len() <= u64::MAX,
        ordinal + lines.len() <= u64::MAX,
    ensures
        ({
            let bytes = before + lines_text(lines, endings);
            let start = before.len() as int;
            let framed = entries(bytes, base, start, ordinal, profile, ceiling, n);
            &&& weight(bytes, base, start, ordinal, profile, ceiling, n) == lines_len(lines.take(n as int))
            &&& framed.len() == n
            &&& forall|k: int| 0 <= k < n ==> (#[trigger] framed[k] matches RecordEntry::Record {
                payload_start,
                payload_end,
                ..
            } && payload_start <= payload_end <= bytes.len() && bytes.subrange(payload_start as int, payload_end as int)
                == lines[k])
        }),
    decreases n,
{
    let bytes = before + lines_text(lines, endings);
    let none = Seq::<u8>::empty();
    assert(before + lines_text(lines, endings) + none =~= bytes);
    if n > 0 {
        let k = (n - 1) as nat;
        lemma_lines_weigh_their_bytes(before, lines, endings, base, ordinal, profile, ceiling, k);
        lemma_a_stream_of_lines_is_its_lines(before, lines, endings, none, base, ordinal, profile, ceiling, k);
        lemma_line_in_its_place(before, lines, endings, none, k as int);
        assert(lines.take(n as int).drop_last() =~= lines.take(k as int));
        assert(lines.take(n as int).last() == lines[k as int]);
    } else {
        assert(lines.take(0) =~= Seq::<Seq<u8>>::empty());
    }
}

/// One poll with room and work for them takes every line of a stream, one record for each, in order and each with its own
/// line as its payload.
pub proof fn lemma_poll_takes_every_line(
    start: PollStart,
    before: Seq<u8>,
    lines: Seq<Seq<u8>>,
    endings: Seq<bool>,
    base: u64,
    limit: RecordBatchLimit,
    granted: usize,
)
    requires
        start.at == before.len(),
        record_lines(lines, start.ceiling),
        (before + lines_text(lines, endings)).len() <= usize::MAX,
        base + (before + lines_text(lines, endings)).len() <= u64::MAX,
        start.ordinal + lines.len() < u64::MAX,
        start.batch.len() + lines.len() <= limit.max_entries,
        lines_len(lines) < limit.target_bytes,
        lines.len() <= granted,
    ensures
        ({
            let bytes = before + lines_text(lines, endings);
            let framed = start.entries(bytes, base, lines.len());
            &&& start.frames(bytes, base, limit, granted, lines.len())
            &&& framed.len() == lines.len()
            &&& forall|k: int| 0 <= k < lines.len() ==> (#[trigger] framed[k] matches RecordEntry::Record {
                payload_start,
                payload_end,
                ..
            } && bytes.subrange(payload_start as int, payload_end as int) == lines[k])
        }),
{
    let bytes = before + lines_text(lines, endings);
    let none = Seq::<u8>::empty();
    assert(before + lines_text(lines, endings) + none =~= bytes);
    assert forall|k: nat| k < lines.len() implies #[trigger] start.takes(bytes, base, limit, granted, k) by {
        lemma_a_stream_of_lines_is_its_lines(
            before,
            lines,
            endings,
            none,
            base,
            start.ordinal,
            start.profile,
            start.ceiling,
            k,
        );
        lemma_line_in_its_place(before, lines, endings, none, k as int);
        lemma_lines_weigh_their_bytes(
            before,
            lines,
            endings,
            base,
            start.ordinal,
            start.profile,
            start.ceiling,
            k,
        );
        lemma_fewer_lines_hold_no_more(lines, k as int);
    }
    lemma_a_stream_of_lines_is_its_lines(
        before,
        lines,
        endings,
        none,
        base,
        start.ordinal,
        start.profile,
        start.ceiling,
        lines.len(),
    );
    assert(lines.take(lines.len() as int) =~= lines);
    lemma_lines_weigh_their_bytes(
        before,
        lines,
        endings,
        base,
        start.ordinal,
        start.profile,
        start.ceiling,
        lines.len(),
    );
}

proof fn lemma_fewer_lines_hold_no_more(lines: Seq<Seq<u8>>, k: int)
    requires
        0 <= k <= lines.len(),
    ensures
        lines_len(lines.take(k)) <= lines_len(lines),
    decreases lines.len(),
{
    if k < lines.len() {
        assert(lines.drop_last().take(k) =~= lines.take(k));
        lemma_fewer_lines_hold_no_more(lines.drop_last(), k);
    } else {
        assert(lines.take(k) =~= lines);
    }
}

/// A poll keeps to its limits: it frames no more records than work was granted for, and no more than the batch has room
/// for.
pub proof fn lemma_poll_keeps_to_its_limits(
    start: PollStart,
    bytes: Seq<u8>,
    base: u64,
    limit: RecordBatchLimit,
    granted: usize,
    n: nat,
)
    requires
        start.frames(bytes, base, limit, granted, n),
    ensures
        n <= granted,
        start.batch.len() <= limit.max_entries ==> start.batch.len() + n <= limit.max_entries,
        start.batch.len() > limit.max_entries ==> n == 0,
{
    if n > 0 {
        assert(start.takes(bytes, base, limit, granted, (n - 1) as nat));
    }
}

/// A byte-order mark is met where the three bytes of U+FEFF stand at the very start of a stream, and nowhere else. A poll
/// that goes on then frames from behind them, and reports an advisory at the stream's start which takes no ordinal; any
/// other poll frames from where the stream stands, and reports nothing of its own.
pub proof fn lemma_a_mark_is_passed_over(session: NdjsonRecordSession, bytes: Seq<u8>, base: u64, batch: Seq<RecordEntry>)
    ensures
        ({
            let marked = !session.begun() && bytes.len() >= 3 && bytes[0] == 0xef && bytes[1] == 0xbb && bytes[2] == 0xbf;
            let start = session.poll_start(bytes, base, batch);
            &&& session.meets_mark(bytes) == marked
            &&& start.ordinal == session.ordinal()
            &&& marked ==> {
                &&& start.at == 3
                &&& start.batch.len() == batch.len() + 1
                &&& start.batch.take(batch.len() as int) == batch
                &&& start.batch[batch.len() as int] == (RecordEntry::Issue {
                    ordinal: session.ordinal(),
                    severity: RecordIssueSeverity::Advisory,
                    code: RecordIssueCode::InitialByteOrderMark,
                    offset: base,
                })
                &&& session.issue_count() < u64::MAX ==> start.issues == session.issue_count() + 1
            }
            &&& !marked ==> start.at == session.at() && start.batch == batch && start.issues == session.issue_count()
        }),
{
    let mark = byte_order_mark();
    if bytes.len() >= 3 {
        let head = bytes.subrange(0, 3);
        assert(head[0] == bytes[0] && head[1] == bytes[1] && head[2] == bytes[2]);
        if bytes[0] == 0xef && bytes[1] == 0xbb && bytes[2] == 0xbf {
            assert(mark =~= head);
        } else {
            assert(mark[0] == 0xef && mark[1] == 0xbb && mark[2] == 0xbf);
        }
    }
    let start = session.poll_start(bytes, base, batch);
    if session.meets_mark(bytes) {
        assert(start.batch.take(batch.len() as int) =~= batch);
    }
}

proof fn lemma_entries_are_records_or_issues(framed: Seq<RecordEntry>)
    ensures
        records_in(framed) == framed.filter(|entry: RecordEntry| entry is Record).len(),
        issues_in(framed) == framed.filter(|entry: RecordEntry| entry is Issue).len(),
        records_in(framed) + issues_in(framed) == framed.len(),
    decreases framed.len(),
{
    reveal(Seq::filter);
    if framed.len() > 0 {
        lemma_entries_are_records_or_issues(framed.drop_last());
    }
}

proof fn lemma_an_entry_for_each(start: PollStart, bytes: Seq<u8>, base: u64, n: nat)
    ensures
        start.entries(bytes, base, n).len() == n,
    decreases n,
{
    if n > 0 {
        lemma_an_entry_for_each(start, bytes, base, (n - 1) as nat);
    }
}

/// A poll answers for what it framed, and for nothing else. It counts every entry once, as a record or as an issue. It says
/// that the stream has ended only where no input is left and it hands nothing over, with the totals; that it waits for
/// work only where it hands nothing over; and it uses one unit of work for each entry. A failure is raised, and stops the
/// stream, only where the poll hands nothing over; behind anything that it hands over, the failure is held back for the
/// next poll, with the stream standing behind the record that failed.
pub proof fn lemma_a_poll_answers_for_what_it_framed(
    session: NdjsonRecordSession,
    start: PollStart,
    bytes: Seq<u8>,
    base: u64,
    limit: RecordBatchLimit,
    granted: usize,
    records: u64,
    outcome: Result<(RecordPoll, usize), RecordFailure>,
    n: nat,
)
    requires
        start.frames(bytes, base, limit, granted, n),
        session.polled(start, bytes, base, limit, granted, records, outcome, n),
        start.ordinal + n < u64::MAX,
        records + n <= u64::MAX,
        start.issues + n <= u64::MAX,
    ensures
        ({
            let framed = start.entries(bytes, base, n);
            let handed = start.batch.len() + n;
            &&& framed.len() == n
            &&& session.record_count() == records + framed.filter(|entry: RecordEntry| entry is Record).len()
            &&& session.issue_count() == start.issues + framed.filter(|entry: RecordEntry| entry is Issue).len()
            &&& (session.record_count() - records) + (session.issue_count() - start.issues) == n
            &&& match outcome {
                Ok((RecordPoll::Filled, used)) => {
                    &&& used == n
                    &&& !session.stopped()
                    &&& session.held() is Some ==> handed > 0 && session.ordinal() == start.ordinal + n + 1
                    &&& session.held() is None ==> session.ordinal() == start.ordinal + n
                    &&& handed == 0 ==> limit.max_entries == 0 || limit.target_bytes == 0
                },
                Ok((RecordPoll::End { records: records_seen, issues: issues_seen }, used)) => {
                    &&& handed == 0 && used == 0
                    &&& !session.stopped() && session.held() is None
                    &&& session.at() >= bytes.len()
                    &&& records_seen == records && issues_seen == start.issues
                },
                Ok((RecordPoll::Pending, used)) => {
                    &&& handed == 0 && used == 0 && granted == 0
                    &&& !session.stopped() && session.held() is None
                    &&& session.at() < bytes.len()
                },
                Err(failure) => {
                    &&& session.held() is None
                    &&& handed == 0 && session.stopped() && failure == start.outcome(bytes, base, n)->Stop_0
                },
            }
        }),
{
    let framed = start.entries(bytes, base, n);
    lemma_an_entry_for_each(start, bytes, base, n);
    lemma_entries_are_records_or_issues(framed);
    assert(!start.takes(bytes, base, limit, granted, n));
    assert(weight(bytes, base, start.at, start.ordinal, start.profile, start.ceiling, 0) == 0);
    if n > 0 {
        assert(start.takes(bytes, base, limit, granted, (n - 1) as nat));
    }
    assert(n <= usize::MAX);
}

} // verus!
