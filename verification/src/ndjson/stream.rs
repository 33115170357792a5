//! Serial NDJSON record framing over contiguous retained input.
//!
//! The session owns physical framing and NOTHING else: it never parses JSON and never copies a payload byte. One poll
//! walks the input and appends the payload ranges it proves to the caller's batch.

use vstd::prelude::*;

use crate::ascii::{CR, LF, SPACE, TAB};

use crate::byte_scan::{line_end, run_end, StopSet};
use crate::lex::{byte_order_mark, starts_with_byte_order_mark};
use crate::ndjson::boundary::{frame_at, frame_of, Frame};
use crate::ndjson::error::RecordIssueCode;
use crate::options::{NdjsonDecodeOptions, NdjsonProfile};

verus! {

/// How much an issue weighs: one error anywhere makes the request fail, advisories do not.
#[derive(Clone, Copy, Debug, PartialEq, Eq, Structural)]
pub enum RecordIssueSeverity {
    /// Reading went on and nothing was lost.
    Advisory,
    /// Real framing damage.
    Error,
}

/// One ordinal's outcome. Offsets are absolute.
#[derive(Clone, Copy, Debug, PartialEq, Eq, Structural)]
pub enum RecordEntry {
    /// A record.
    Record {
        /// The record's ordinal.
        ordinal: u64,
        /// Offset of the record's first byte.
        start: u64,
        /// Offset just past the record's last byte, terminator included.
        end: u64,
        /// Index of the payload's first byte in the retained input.
        payload_start: usize,
        /// Index just past the payload's last byte in the retained input.
        payload_end: usize,
    },
    /// A fault the stream went on after.
    Issue {
        /// The ordinal of the record the fault is in, or precedes.
        ordinal: u64,
        /// How much it weighs.
        severity: RecordIssueSeverity,
        /// What it is.
        code: RecordIssueCode,
        /// Where it is.
        offset: u64,
    },
}

/// Why a stream stopped.
#[derive(Clone, Copy, Debug, PartialEq, Eq, Structural)]
pub enum RecordFailure {
    /// A framing fault under the strict profile. Offsets are absolute.
    Framing {
        /// What it is.
        code: RecordIssueCode,
        /// Offset of the record's first byte.
        record_start: u64,
        /// Where the fault is.
        offset: u64,
    },
    /// No ordinal is left.
    OrdinalExhausted,
    /// The stream was polled after it was aborted.
    PolledAfterAbort,
}

/// Whether a payload holds no value at all: nothing but spaces and tabs.
pub open spec fn blank(payload: Seq<u8>) -> bool {
    forall|i: int| 0 <= i < payload.len() ==> (#[trigger] payload[i] == SPACE || payload[i] == TAB)
}

/// Whether a framed payload holds no value at all: it is empty, or nothing but padding.
///
/// Only SPACE and TAB pad a RECORD payload: the framer owns LF and CR as physical bytes, so a raw one inside a payload is
/// a framing error for the framer to classify, never whitespace swallowed here.
pub fn payload_is_blank(payload: &[u8]) -> (is_blank: bool)
    ensures
        is_blank == blank(payload@),
{
    let mut i: usize = 0;
    while i < payload.len()
        invariant
            i <= payload.len(),
            forall|k: int| 0 <= k < i ==> (#[trigger] payload@[k] == SPACE || payload@[k] == TAB),
        decreases payload.len() - i,
    {
        if payload[i] != SPACE && payload[i] != TAB {
            return false;
        }
        i += 1;
    }
    true
}

/// One framed record unit, before its profile decides what to do with it.
#[derive(Clone, Copy, Debug, PartialEq, Eq, Structural)]
pub struct Unit {
    /// Index of the record's first byte.
    pub record_start: usize,
    /// Index just past the payload.
    pub payload_end: usize,
    /// Index just past the record, terminator included.
    pub physical_end: usize,
}

/// A framing fault inside one record unit.
#[derive(Clone, Copy, Debug, PartialEq, Eq, Structural)]
pub struct Fault {
    /// What it is.
    pub code: RecordIssueCode,
    /// The index it is at.
    pub offset: usize,
}

/// Just past the first line feed at or after `from`, or the end of `bytes`: where reading resumes after a fault.
pub open spec fn resume_after(bytes: Seq<u8>, from: int) -> int {
    let at = line_end(bytes, from);
    if at < bytes.len() {
        at + 1
    } else {
        bytes.len() as int
    }
}

/// The record unit at `start`.
pub open spec fn unit_of(bytes: Seq<u8>, start: int) -> Unit {
    let (payload_end, physical_end) = match frame_of(bytes, start) {
        Frame::Lf { lf } => (lf as int, lf + 1),
        Frame::CrLf { cr } => (cr as int, cr + 2),
        Frame::BareCr { cr } => (cr as int, resume_after(bytes, cr as int)),
        Frame::Unterminated => (bytes.len() as int, bytes.len() as int),
    };
    Unit {
        record_start: start as usize,
        payload_end: payload_end as usize,
        physical_end: physical_end as usize,
    }
}

/// The fault of the record unit at `start`, the earliest one where there are several: a blank record's at its own start,
/// an oversize record's at its first excess byte, a bare carriage return's where it stands, and a missing terminator's at
/// the end of input.
pub open spec fn fault_of(bytes: Seq<u8>, start: int, ceiling: u64) -> Option<Fault> {
    let unit = unit_of(bytes, start);
    let framing = match frame_of(bytes, start) {
        Frame::BareCr { cr } => Some(Fault { code: RecordIssueCode::BareCarriageReturn, offset: cr }),
        Frame::Unterminated => Some(
            Fault { code: RecordIssueCode::MissingFinalTerminator, offset: bytes.len() as usize },
        ),
        _ => None,
    };
    let payload = bytes.subrange(start, unit.payload_end as int);
    if blank(payload) {
        Some(Fault { code: RecordIssueCode::BlankRecord, offset: start as usize })
    } else if payload.len() > ceiling && (framing is None || start + ceiling < framing->0.offset) {
        Some(Fault { code: RecordIssueCode::OversizeRecord, offset: (start + ceiling) as usize })
    } else {
        framing
    }
}

proof fn lemma_unit(bytes: Seq<u8>, start: int)
    requires
        0 <= start < bytes.len() <= usize::MAX,
    ensures
        ({
            let unit = unit_of(bytes, start);
            &&& unit.record_start == start
            &&& start <= unit.payload_end <= unit.physical_end <= bytes.len()
            &&& start < unit.physical_end
        }),
{
    crate::byte_scan::lemma_run_end(bytes, start, StopSet::NdjsonFrame);
    if let Frame::BareCr { cr } = frame_of(bytes, start) {
        crate::byte_scan::lemma_line_end(bytes, cr as int);
    }
}

/// `base + index`, held at the largest offset.
pub open spec fn absolute(base: u64, index: int) -> u64 {
    if base + index <= u64::MAX {
        (base + index) as u64
    } else {
        u64::MAX
    }
}

/// What the record at `start` comes to.
pub enum Outcome {
    /// An entry, and how many payload bytes it counts for.
    Entry(RecordEntry, int),
    /// A fault that stops the stream.
    Stop(RecordFailure),
}

/// What the record at `start` comes to under a profile. A complete final record with no terminator is a record under
/// either profile; every other fault stops a strict stream and is an issue of a recovering one, advisory for a blank
/// record and an error otherwise.
pub open spec fn outcome_of(
    bytes: Seq<u8>,
    base: u64,
    start: int,
    ordinal: u64,
    profile: NdjsonProfile,
    ceiling: u64,
) -> Outcome {
    let unit = unit_of(bytes, start);
    match fault_of(bytes, start, ceiling) {
        Some(fault) => if fault.code == RecordIssueCode::MissingFinalTerminator {
            record_outcome(base, unit, ordinal)
        } else if profile == NdjsonProfile::Strict {
            Outcome::Stop(
                RecordFailure::Framing {
                    code: fault.code,
                    record_start: absolute(base, start),
                    offset: absolute(base, fault.offset as int),
                },
            )
        } else {
            Outcome::Entry(
                RecordEntry::Issue {
                    ordinal,
                    severity: if fault.code == RecordIssueCode::BlankRecord {
                        RecordIssueSeverity::Advisory
                    } else {
                        RecordIssueSeverity::Error
                    },
                    code: fault.code,
                    offset: absolute(base, fault.offset as int),
                },
                0,
            )
        },
        None => record_outcome(base, unit, ordinal),
    }
}

/// A published record.
pub open spec fn record_outcome(base: u64, unit: Unit, ordinal: u64) -> Outcome {
    Outcome::Entry(
        RecordEntry::Record {
            ordinal,
            start: absolute(base, unit.record_start as int),
            end: absolute(base, unit.physical_end as int),
            payload_start: unit.record_start,
            payload_end: unit.payload_end,
        },
        unit.payload_end - unit.record_start,
    )
}

/// Serial NDJSON framing state. Every field is a scalar: the session retains no payload storage and no per-record buffer.
pub struct NdjsonRecordSession {
    profile: NdjsonProfile,
    options: NdjsonDecodeOptions,
    cursor: usize,
    next_ordinal: u64,
    records: u64,
    issues: u64,
    started: bool,
    aborted: bool,
    /// A terminal framing failure held back until the batch drains: earlier records stay published, and the fault is
    /// raised on the next poll, before any further entry.
    pending_failure: Option<RecordFailure>,
}

impl NdjsonRecordSession {
    /// The session's profile.
    pub closed spec fn profile(self) -> NdjsonProfile {
        self.profile
    }

    /// The per-record payload ceiling.
    pub closed spec fn ceiling(self) -> u64 {
        self.options.ceiling()
    }

    /// Index of the next record's first byte.
    pub closed spec fn at(self) -> usize {
        self.cursor
    }

    /// The next record's ordinal.
    pub closed spec fn ordinal(self) -> u64 {
        self.next_ordinal
    }

    /// How many records were published.
    pub closed spec fn record_count(self) -> u64 {
        self.records
    }

    /// How many issues were published.
    pub closed spec fn issue_count(self) -> u64 {
        self.issues
    }

    /// Whether the stream's prefix was read.
    pub closed spec fn begun(self) -> bool {
        self.started
    }

    /// Whether the stream was aborted, by its user or by a fault.
    pub closed spec fn stopped(self) -> bool {
        self.aborted
    }

    /// The failure held back for the next poll.
    pub closed spec fn held(self) -> Option<RecordFailure> {
        self.pending_failure
    }

    /// A session that has read nothing.
    pub fn new(profile: NdjsonProfile, options: NdjsonDecodeOptions) -> (session: NdjsonRecordSession)
        ensures
            session.profile() == profile,
            session.ceiling() == options.ceiling(),
            session.at() == 0,
            session.ordinal() == 0,
            session.record_count() == 0,
            session.issue_count() == 0,
            !session.begun(),
            !session.stopped(),
            session.held() is None,
    {
        NdjsonRecordSession {
            profile,
            options,
            cursor: 0,
            next_ordinal: 0,
            records: 0,
            issues: 0,
            started: false,
            aborted: false,
            pending_failure: None,
        }
    }

    /// Frames the record starting at the cursor, or reports its fault.
    ///
    /// The earliest fault wins. At a TIE the blank classification wins over a bare carriage return at the record's first
    /// byte, and the oversize bound replaces only a strictly later fault.
    pub fn frame_unit(&self, bytes: &[u8]) -> (framed: (Unit, Option<Fault>))
        requires
            self.at() < bytes.len(),
        ensures
            framed.0 == unit_of(bytes@, self.at() as int),
            framed.1 == fault_of(bytes@, self.at() as int, self.ceiling()),
            self.at() <= framed.0.payload_end <= framed.0.physical_end <= bytes.len(),
            self.at() < framed.0.physical_end,
            framed.0.record_start == self.at(),
    {
        let record_start = self.cursor;
        proof {
            lemma_unit(bytes@, record_start as int);
            crate::byte_scan::lemma_run_end(bytes@, record_start as int, StopSet::NdjsonFrame);
        }
        let (payload_end, physical_end, framing) = match frame_at(bytes, record_start) {
            Frame::Lf { lf } => (lf, lf + 1, None),
            Frame::CrLf { cr } => (cr, cr + 2, None),
            Frame::BareCr { cr } => {
                // The record ends where recovery can resume: after the next physical line feed, or at end of input.
                let at = crate::byte_scan::find_line_end(bytes, cr);
                let resume = if at < bytes.len() {
                    at + 1
                } else {
                    bytes.len()
                };
                (cr, resume, Some(Fault { code: RecordIssueCode::BareCarriageReturn, offset: cr }))
            }
            Frame::Unterminated => (
                bytes.len(),
                bytes.len(),
                Some(Fault { code: RecordIssueCode::MissingFinalTerminator, offset: bytes.len() }),
            ),
        };
        let unit = Unit { record_start, payload_end, physical_end };
        let payload = vstd::slice::slice_subrange(bytes, record_start, payload_end);
        if payload_is_blank(payload) {
            return (unit, Some(Fault { code: RecordIssueCode::BlankRecord, offset: record_start }));
        }
        let ceiling = self.options.max_record_bytes();
        if payload.len() as u64 > ceiling {
            let excess = record_start + ceiling as usize;
            let earlier = match framing {
                None => true,
                Some(fault) => excess < fault.offset,
            };
            if earlier {
                return (unit, Some(Fault { code: RecordIssueCode::OversizeRecord, offset: excess }));
            }
        }
        (unit, framing)
    }
}

/// `count` plus `more`, held at the largest count.
pub open spec fn counted(count: u64, more: nat) -> u64 {
    if count + more <= u64::MAX {
        (count + more) as u64
    } else {
        u64::MAX
    }
}

/// How many of the entries are records.
pub open spec fn records_in(entries: Seq<RecordEntry>) -> nat
    decreases entries.len(),
{
    if entries.len() == 0 {
        0
    } else {
        records_in(entries.drop_last()) + if entries.last() is Record {
            1nat
        } else {
            0
        }
    }
}

/// How many of the entries are issues.
pub open spec fn issues_in(entries: Seq<RecordEntry>) -> nat
    decreases entries.len(),
{
    if entries.len() == 0 {
        0
    } else {
        issues_in(entries.drop_last()) + if entries.last() is Issue {
            1nat
        } else {
            0
        }
    }
}

/// Where record `n`, counted from the one at `start`, begins.
pub open spec fn position(bytes: Seq<u8>, start: int, n: nat) -> int
    decreases n,
{
    if n == 0 {
        start
    } else {
        let at = position(bytes, start, (n - 1) as nat);
        if 0 <= at < bytes.len() {
            unit_of(bytes, at).physical_end as int
        } else {
            at
        }
    }
}

/// What record `n`, counted from the one at `start` with ordinal `ordinal`, comes to.
pub open spec fn nth_outcome(
    bytes: Seq<u8>,
    base: u64,
    start: int,
    ordinal: u64,
    profile: NdjsonProfile,
    ceiling: u64,
    n: nat,
) -> Outcome {
    outcome_of(bytes, base, position(bytes, start, n), (ordinal + n) as u64, profile, ceiling)
}

/// The entries of the first `n` records from `start` on.
pub open spec fn entries(
    bytes: Seq<u8>,
    base: u64,
    start: int,
    ordinal: u64,
    profile: NdjsonProfile,
    ceiling: u64,
    n: nat,
) -> Seq<RecordEntry>
    decreases n,
{
    if n == 0 {
        seq![]
    } else {
        entries(bytes, base, start, ordinal, profile, ceiling, (n - 1) as nat).push(
            nth_outcome(bytes, base, start, ordinal, profile, ceiling, (n - 1) as nat)->Entry_0,
        )
    }
}

/// How many payload bytes the first `n` records from `start` on count for.
pub open spec fn weight(
    bytes: Seq<u8>,
    base: u64,
    start: int,
    ordinal: u64,
    profile: NdjsonProfile,
    ceiling: u64,
    n: nat,
) -> int
    decreases n,
{
    if n == 0 {
        0
    } else {
        weight(bytes, base, start, ordinal, profile, ceiling, (n - 1) as nat) + nth_outcome(
            bytes,
            base,
            start,
            ordinal,
            profile,
            ceiling,
            (n - 1) as nat,
        )->Entry_1
    }
}

impl NdjsonRecordSession {
    /// Everything about the session but where it stands and what it counted.
    pub open spec fn same_stream(self, other: NdjsonRecordSession) -> bool {
        &&& self.profile() == other.profile()
        &&& self.ceiling() == other.ceiling()
        &&& self.begun() == other.begun()
        &&& self.stopped() == other.stopped()
    }

    /// Appends exactly one ordinal's outcome, advancing the cursor past it, and returns how many payload bytes it counts
    /// for. A fault that stops the stream is returned where the batch is empty, and otherwise held back — `None` — so
    /// the caller can return the entries it already framed.
    fn emit(&mut self, bytes: &[u8], base: u64, batch: &mut Vec<RecordEntry>) -> (emitted: Result<
        Option<u64>,
        RecordFailure,
    >)
        requires
            old(self).at() < bytes.len(),
        ensures
            final(self).same_stream(*old(self)),
            if old(self).ordinal() == u64::MAX {
                &&& emitted == Err::<Option<u64>, RecordFailure>(RecordFailure::OrdinalExhausted)
                &&& *final(self) == *old(self)
                &&& final(batch)@ == old(batch)@
            } else {
                &&& final(self).at() == unit_of(bytes@, old(self).at() as int).physical_end
                &&& old(self).at() < final(self).at() <= bytes.len()
                &&& final(self).ordinal() == old(self).ordinal() + 1
                &&& match outcome_of(
                    bytes@,
                    base,
                    old(self).at() as int,
                    old(self).ordinal(),
                    old(self).profile(),
                    old(self).ceiling(),
                ) {
                    Outcome::Entry(entry, weight) => {
                        &&& emitted == Ok::<Option<u64>, RecordFailure>(Some(weight as u64))
                        &&& 0 <= weight <= u64::MAX
                        &&& final(batch)@ == old(batch)@.push(entry)
                        &&& final(self).record_count() == counted(
                            old(self).record_count(),
                            if entry is Record {
                                1nat
                            } else {
                                0
                            },
                        )
                        &&& final(self).issue_count() == counted(
                            old(self).issue_count(),
                            if entry is Issue {
                                1nat
                            } else {
                                0
                            },
                        )
                        &&& final(self).held() == old(self).held()
                    },
                    Outcome::Stop(failure) => {
                        &&& final(batch)@ == old(batch)@
                        &&& final(self).record_count() == old(self).record_count()
                        &&& final(self).issue_count() == old(self).issue_count()
                        &&& if old(batch)@.len() == 0 {
                            emitted == Err::<Option<u64>, RecordFailure>(failure) && final(self).held() == old(
                                self,
                            ).held()
                        } else {
                            emitted == Ok::<Option<u64>, RecordFailure>(None) && final(self).held() == Some(failure)
                        }
                    },
                }
            },
    {
        let (unit, fault) = self.frame_unit(bytes);
        let ordinal = self.next_ordinal;
        match ordinal.checked_add(1) {
            Some(next) => self.next_ordinal = next,
            None => return Err(RecordFailure::OrdinalExhausted),
        }
        self.cursor = unit.physical_end;
        let start = base.saturating_add(unit.record_start as u64);
        if let Some(fault) = fault {
            // Both profiles accept a COMPLETE final value with no terminator: the missing terminator is a legal
            // final-record shape, and a truncated tail still fails as a malformed PAYLOAD.
            if fault.code != RecordIssueCode::MissingFinalTerminator {
                let offset = base.saturating_add(fault.offset as u64);
                if self.profile == NdjsonProfile::Strict {
                    let failure = RecordFailure::Framing { code: fault.code, record_start: start, offset };
                    if batch.len() == 0 {
                        return Err(failure);
                    }
                    self.pending_failure = Some(failure);
                    return Ok(None);
                }
                // A blank line is legal whitespace between adjacent values, so recovery skips it; bare carriage returns
                // and oversize payloads are real framing damage.
                let severity = if fault.code == RecordIssueCode::BlankRecord {
                    RecordIssueSeverity::Advisory
                } else {
                    RecordIssueSeverity::Error
                };
                self.issues = self.issues.saturating_add(1);
                batch.push(RecordEntry::Issue { ordinal, severity, code: fault.code, offset });
                return Ok(Some(0));
            }
        }
        self.records = self.records.saturating_add(1);
        batch.push(
            RecordEntry::Record {
                ordinal,
                start,
                end: base.saturating_add(unit.physical_end as u64),
                payload_start: unit.record_start,
                payload_end: unit.payload_end,
            },
        );
        Ok(Some((unit.payload_end - unit.record_start) as u64))
    }
}

/// How many entries and payload bytes one batch may hold.
#[derive(Clone, Copy, Debug, PartialEq, Eq, Structural)]
pub struct RecordBatchLimit {
    /// The most entries, issues included.
    pub max_entries: u32,
    /// How many payload bytes end a batch.
    pub target_bytes: u64,
}

/// What one poll comes to.
#[derive(Clone, Copy, Debug, PartialEq, Eq, Structural)]
pub enum RecordPoll {
    /// The batch holds entries.
    Filled,
    /// No work was granted and the batch is empty: poll again.
    Pending,
    /// The stream is at its end.
    End {
        /// How many records it held.
        records: u64,
        /// How many issues it raised.
        issues: u64,
    },
}

/// The issue a recovering stream reports for a byte-order mark at its start.
pub open spec fn mark_issue(base: u64, ordinal: u64) -> RecordEntry {
    RecordEntry::Issue {
        ordinal,
        severity: RecordIssueSeverity::Advisory,
        code: RecordIssueCode::InitialByteOrderMark,
        offset: base,
    }
}

/// Where a poll's framing starts: the session's stream, from `at` on, into a batch that holds `batch`.
pub struct PollStart {
    pub profile: NdjsonProfile,
    pub ceiling: u64,
    pub at: int,
    pub ordinal: u64,
    pub issues: u64,
    pub batch: Seq<RecordEntry>,
}

impl NdjsonRecordSession {
    /// Whether this poll meets a byte-order mark at the start of the stream.
    pub open spec fn meets_mark(self, bytes: Seq<u8>) -> bool {
        !self.begun() && byte_order_mark().is_prefix_of(bytes)
    }

    /// Where this poll's framing starts: past a byte-order mark at the start of a recovering stream, which is reported
    /// as an advisory carrying the ordinal of the record it precedes.
    pub open spec fn poll_start(self, bytes: Seq<u8>, base: u64, batch: Seq<RecordEntry>) -> PollStart {
        let marked = self.meets_mark(bytes);
        PollStart {
            profile: self.profile(),
            ceiling: self.ceiling(),
            at: if marked {
                3
            } else {
                self.at() as int
            },
            ordinal: self.ordinal(),
            issues: if marked {
                counted(self.issue_count(), 1)
            } else {
                self.issue_count()
            },
            batch: if marked {
                batch.push(mark_issue(base, self.ordinal()))
            } else {
                batch
            },
        }
    }

    /// Consumes a byte-order mark at the start of the stream under the profile's law. The mark consumes no ordinal.
    fn start_stream(&mut self, bytes: &[u8], base: u64, batch: &mut Vec<RecordEntry>) -> (started: Result<
        (),
        RecordFailure,
    >)
        requires
            !old(self).begun(),
        ensures
            final(self).begun(),
            final(self).profile() == old(self).profile(),
            final(self).ceiling() == old(self).ceiling(),
            final(self).stopped() == old(self).stopped(),
            final(self).held() == old(self).held(),
            final(self).ordinal() == old(self).ordinal(),
            final(self).record_count() == old(self).record_count(),
            if old(self).meets_mark(bytes@) && old(self).profile() == NdjsonProfile::Strict {
                &&& started == Err::<(), RecordFailure>(
                    RecordFailure::Framing {
                        code: RecordIssueCode::InitialByteOrderMark,
                        record_start: base,
                        offset: base,
                    },
                )
                &&& final(batch)@ == old(batch)@
                &&& final(self).at() == old(self).at()
                &&& final(self).issue_count() == old(self).issue_count()
            } else {
                let start = old(self).poll_start(bytes@, base, old(batch)@);
                &&& started == Ok::<(), RecordFailure>(())
                &&& final(self).at() == start.at
                &&& final(self).issue_count() == start.issues
                &&& final(batch)@ == start.batch
            },
    {
        self.started = true;
        if !starts_with_byte_order_mark(bytes) {
            return Ok(());
        }
        if self.profile == NdjsonProfile::Strict {
            return Err(
                RecordFailure::Framing {
                    code: RecordIssueCode::InitialByteOrderMark,
                    record_start: base,
                    offset: base,
                },
            );
        }
        self.cursor = 3;
        self.issues = self.issues.saturating_add(1);
        batch.push(
            RecordEntry::Issue {
                ordinal: self.next_ordinal,
                severity: RecordIssueSeverity::Advisory,
                code: RecordIssueCode::InitialByteOrderMark,
                offset: base,
            },
        );
        Ok(())
    }
}

impl PollStart {
    /// Where record `n` of the poll begins.
    pub open spec fn position(self, bytes: Seq<u8>, n: nat) -> int {
        position(bytes, self.at, n)
    }

    /// What record `n` of the poll comes to.
    pub open spec fn outcome(self, bytes: Seq<u8>, base: u64, n: nat) -> Outcome {
        nth_outcome(bytes, base, self.at, self.ordinal, self.profile, self.ceiling, n)
    }

    /// The entries of the poll's first `n` records.
    pub open spec fn entries(self, bytes: Seq<u8>, base: u64, n: nat) -> Seq<RecordEntry> {
        entries(bytes, base, self.at, self.ordinal, self.profile, self.ceiling, n)
    }

    /// Whether the batch takes no more after the poll's first `n` records.
    pub open spec fn full(self, bytes: Seq<u8>, base: u64, limit: RecordBatchLimit, n: nat) -> bool {
        ||| self.batch.len() + n >= limit.max_entries
        ||| weight(bytes, base, self.at, self.ordinal, self.profile, self.ceiling, n) >= limit.target_bytes
    }

    /// Whether the poll goes on to record `n`: the batch takes more, input is left, work is granted, an ordinal is left,
    /// and the record does not stop the stream.
    pub open spec fn takes(
        self,
        bytes: Seq<u8>,
        base: u64,
        limit: RecordBatchLimit,
        granted: usize,
        n: nat,
    ) -> bool {
        &&& !self.full(bytes, base, limit, n)
        &&& self.position(bytes, n) < bytes.len()
        &&& n < granted
        &&& self.ordinal + n < u64::MAX
        &&& self.outcome(bytes, base, n) is Entry
    }

    /// Whether the poll frames exactly `n` records.
    pub open spec fn frames(
        self,
        bytes: Seq<u8>,
        base: u64,
        limit: RecordBatchLimit,
        granted: usize,
        n: nat,
    ) -> bool {
        &&& forall|k: nat| k < n ==> #[trigger] self.takes(bytes, base, limit, granted, k)
        &&& !self.takes(bytes, base, limit, granted, n)
    }
}

/// Why a poll that framed `n` records framed no more.
pub enum PollStop {
    /// The batch takes no more, or holds something and no input or work is left.
    Filled,
    /// The batch is empty and no input is left.
    End,
    /// The batch is empty and no work is left.
    Pending,
    /// No ordinal is left.
    Exhausted,
    /// The next record stops the stream, and the batch is empty.
    Fail(RecordFailure),
    /// The next record stops the stream, and the batch holds something: the failure is held back.
    Hold(RecordFailure),
}

impl PollStart {
    /// Why the poll frames no more than `n` records.
    pub open spec fn stop(
        self,
        bytes: Seq<u8>,
        base: u64,
        limit: RecordBatchLimit,
        granted: usize,
        n: nat,
    ) -> PollStop {
        let empty = self.batch.len() + n == 0;
        if self.full(bytes, base, limit, n) {
            PollStop::Filled
        } else if self.position(bytes, n) >= bytes.len() {
            if empty {
                PollStop::End
            } else {
                PollStop::Filled
            }
        } else if n >= granted {
            if empty {
                PollStop::Pending
            } else {
                PollStop::Filled
            }
        } else if self.ordinal + n >= u64::MAX {
            PollStop::Exhausted
        } else if empty {
            PollStop::Fail(self.outcome(bytes, base, n)->Stop_0)
        } else {
            PollStop::Hold(self.outcome(bytes, base, n)->Stop_0)
        }
    }
}

impl NdjsonRecordSession {
    /// The session after a poll that started at `start` and framed `n` records, with `past` more behind it.
    pub open spec fn framed_to(self, start: PollStart, bytes: Seq<u8>, base: u64, n: nat, past: nat) -> bool {
        let framed = start.entries(bytes, base, n);
        &&& self.begun()
        &&& self.profile() == start.profile
        &&& self.ceiling() == start.ceiling
        &&& self.at() == start.position(bytes, n + past)
        &&& self.ordinal() == start.ordinal + n + past
        &&& self.issue_count() == counted(start.issues, issues_in(framed))
    }

    /// The session stopped, with nothing held back, and is `before` otherwise.
    pub open spec fn gave_up(self, before: NdjsonRecordSession) -> bool {
        &&& self.stopped()
        &&& self.held() is None
        &&& self.profile() == before.profile()
        &&& self.ceiling() == before.ceiling()
        &&& self.at() == before.at()
        &&& self.ordinal() == before.ordinal()
        &&& self.record_count() == before.record_count()
        &&& self.issue_count() == before.issue_count()
    }

    /// What a poll that frames `n` records comes to, with its records counted on from `records`.
    pub open spec fn polled(
        self,
        start: PollStart,
        bytes: Seq<u8>,
        base: u64,
        limit: RecordBatchLimit,
        granted: usize,
        records: u64,
        outcome: Result<(RecordPoll, usize), RecordFailure>,
        n: nat,
    ) -> bool {
        &&& self.record_count() == counted(records, records_in(start.entries(bytes, base, n)))
        &&& self.stopped() == (start.stop(bytes, base, limit, granted, n) is Fail)
        &&& match start.stop(bytes, base, limit, granted, n) {
            PollStop::Filled => outcome == Ok::<(RecordPoll, usize), RecordFailure>((RecordPoll::Filled, n as usize))
                && self.framed_to(start, bytes, base, n, 0) && self.held() is None,
            PollStop::End => outcome == Ok::<(RecordPoll, usize), RecordFailure>(
                (RecordPoll::End { records: self.record_count(), issues: self.issue_count() }, n as usize),
            ) && self.framed_to(start, bytes, base, n, 0) && self.held() is None,
            PollStop::Pending => outcome == Ok::<(RecordPoll, usize), RecordFailure>((RecordPoll::Pending, n as usize))
                && self.framed_to(start, bytes, base, n, 0) && self.held() is None,
            PollStop::Exhausted => outcome == Err::<(RecordPoll, usize), RecordFailure>(
                RecordFailure::OrdinalExhausted,
            ) && self.framed_to(start, bytes, base, n, 0) && self.held() is None,
            PollStop::Fail(failure) => outcome == Err::<(RecordPoll, usize), RecordFailure>(failure) && self.framed_to(
                start,
                bytes,
                base,
                n,
                1,
            ) && self.held() is None,
            PollStop::Hold(failure) => outcome == Ok::<(RecordPoll, usize), RecordFailure>(
                (RecordPoll::Filled, n as usize),
            ) && self.framed_to(start, bytes, base, n, 1) && self.held() == Some(failure),
        }
    }

    /// Frames records into `batch` until it holds enough, the input ends, the granted work is used up, or the stream
    /// stops, and returns what that comes to together with how much of the granted work — one unit a record — was used.
    ///
    /// Issues and records share ONE entry budget. A failure that was held back is raised before any further entry. A
    /// framing fault that was raised aborts the stream.
    pub fn poll(
        &mut self,
        bytes: &[u8],
        base: u64,
        limit: RecordBatchLimit,
        batch: &mut Vec<RecordEntry>,
        granted: usize,
    ) -> (outcome: Result<(RecordPoll, usize), RecordFailure>)
        ensures
            if old(self).stopped() {
                &&& outcome == Err::<(RecordPoll, usize), RecordFailure>(RecordFailure::PolledAfterAbort)
                &&& *final(self) == *old(self)
                &&& final(batch)@ == old(batch)@
            } else if old(self).held() is Some {
                &&& outcome == Err::<(RecordPoll, usize), RecordFailure>(old(self).held()->0)
                &&& final(self).gave_up(*old(self))
                &&& final(batch)@ == old(batch)@
            } else if old(self).meets_mark(bytes@) && old(self).profile() == NdjsonProfile::Strict {
                &&& outcome == Err::<(RecordPoll, usize), RecordFailure>(
                    RecordFailure::Framing {
                        code: RecordIssueCode::InitialByteOrderMark,
                        record_start: base,
                        offset: base,
                    },
                )
                &&& final(self).gave_up(*old(self))
                &&& final(batch)@ == old(batch)@
            } else {
                let start = old(self).poll_start(bytes@, base, old(batch)@);
                exists|n: nat|
                    {
                        &&& #[trigger] start.frames(bytes@, base, limit, granted, n)
                        &&& final(batch)@ == start.batch + start.entries(bytes@, base, n)
                        &&& final(self).polled(
                            start,
                            bytes@,
                            base,
                            limit,
                            granted,
                            old(self).record_count(),
                            outcome,
                            n,
                        )
                    }
            },
            // A framing fault is terminal: once it was raised, every later poll fails and frames nothing.
            outcome matches Err(RecordFailure::Framing { .. }) ==> final(self).stopped(),
    {
        if self.aborted {
            return Err(RecordFailure::PolledAfterAbort);
        }
        if let Some(failure) = self.pending_failure {
            self.pending_failure = None;
            self.aborted = true;
            return Err(failure);
        }
        if !self.started {
            match self.start_stream(bytes, base, batch) {
                Ok(_) => {}
                Err(failure) => {
                    self.aborted = true;
                    return Err(failure);
                }
            }
        }
        let ghost start = old(self).poll_start(bytes@, base, old(batch)@);
        let mut used: usize = 0;
        let mut payload_bytes: u64 = 0;
        let ghost mut n: nat = 0;
        assert(start.batch + start.entries(bytes@, base, 0) =~= start.batch);
        while batch.len() < limit.max_entries as usize && payload_bytes < limit.target_bytes && self.cursor < bytes.len()
            && used < granted
            invariant
                !old(self).stopped(),
                old(self).held() is None,
                !(old(self).meets_mark(bytes@) && old(self).profile() == NdjsonProfile::Strict),
                n == used,
                used <= granted,
                start == old(self).poll_start(bytes@, base, old(batch)@),
                forall|k: nat| k < n ==> #[trigger] start.takes(bytes@, base, limit, granted, k),
                batch@ == start.batch + start.entries(bytes@, base, n),
                start.entries(bytes@, base, n).len() == n,
                self.framed_to(start, bytes@, base, n, 0),
                !self.stopped(),
                self.held() is None,
                self.record_count() == counted(
                    old(self).record_count(),
                    records_in(start.entries(bytes@, base, n)),
                ),
                payload_bytes == counted(
                    0,
                    weight(
                        bytes@,
                        base,
                        start.at,
                        start.ordinal,
                        start.profile,
                        start.ceiling,
                        n,
                    ) as nat,
                ),
                weight(bytes@, base, start.at, start.ordinal, start.profile, start.ceiling, n) >= 0,
            decreases granted - used,
        {
            let ghost framed = start.entries(bytes@, base, n);
            let ghost outcome = start.outcome(bytes@, base, n);
            match self.emit(bytes, base, batch) {
                Ok(Some(weight)) => {
                    payload_bytes = payload_bytes.saturating_add(weight);
                    used += 1;
                    proof {
                        assert(start.takes(bytes@, base, limit, granted, n));
                        let more = start.entries(bytes@, base, n + 1);
                        assert(more.drop_last() =~= framed);
                        assert(batch@ =~= start.batch + more);
                        n = n + 1;
                    }
                }
                Ok(None) => {
                    assert(start.frames(bytes@, base, limit, granted, n));
                    return Ok((RecordPoll::Filled, used));
                }
                Err(failure) => {
                    // An exhausted ordinal stays exhausted; a fault ends the stream where it stands.
                    if let RecordFailure::Framing { .. } = failure {
                        self.aborted = true;
                    }
                    assert(start.frames(bytes@, base, limit, granted, n));
                    return Err(failure);
                }
            }
        }
        assert(start.frames(bytes@, base, limit, granted, n));
        if batch.len() >= limit.max_entries as usize || payload_bytes >= limit.target_bytes || batch.len() > 0 {
            return Ok((RecordPoll::Filled, used));
        }
        if self.cursor >= bytes.len() {
            return Ok((RecordPoll::End { records: self.records, issues: self.issues }, used));
        }
        Ok((RecordPoll::Pending, used))
    }

    /// Aborts the stream: leases already handed out stay valid, and every later poll fails.
    pub fn abort(&mut self)
        ensures
            final(self).stopped(),
            final(self).profile() == old(self).profile(),
            final(self).ceiling() == old(self).ceiling(),
            final(self).record_count() == old(self).record_count(),
            final(self).issue_count() == old(self).issue_count(),
            final(self).ordinal() == old(self).ordinal(),
            final(self).begun() == old(self).begun(),
            final(self).held() == old(self).held(),
            final(self).at() == usize::MAX,
    {
        self.aborted = true;
        self.cursor = usize::MAX;
    }
}

/// Every record takes at least a byte and none past the input: the next one begins strictly later, and never past the
/// end, so the records from any place on are adjacent pieces of the input.
pub proof fn lemma_records_are_adjacent(bytes: Seq<u8>, start: int, n: nat)
    requires
        0 <= start <= bytes.len() <= usize::MAX,
    ensures
        start <= position(bytes, start, n) <= bytes.len(),
        position(bytes, start, n) < bytes.len() ==> position(bytes, start, n) < position(bytes, start, n + 1)
            <= bytes.len(),
        position(bytes, start, n) == bytes.len() ==> position(bytes, start, n + 1) == bytes.len(),
    decreases n,
{
    if n > 0 {
        lemma_records_are_adjacent(bytes, start, (n - 1) as nat);
    }
    let at = position(bytes, start, n);
    if at < bytes.len() {
        lemma_unit(bytes, at);
    }
}

/// Positions compose: record `m` after record `n` is record `n + m`.
proof fn lemma_positions_compose(bytes: Seq<u8>, start: int, n: nat, m: nat)
    ensures
        position(bytes, position(bytes, start, n), m) == position(bytes, start, n + m),
    decreases m,
{
    if m > 0 {
        lemma_positions_compose(bytes, start, n, (m - 1) as nat);
    }
}

/// How a stream is cut into batches does not change what it holds: the entries of `n + m` records are those of the first
/// `n`, and then those of the `m` that follow, framed from where the first left off.
pub proof fn lemma_batches_compose(
    bytes: Seq<u8>,
    base: u64,
    start: int,
    ordinal: u64,
    profile: NdjsonProfile,
    ceiling: u64,
    n: nat,
    m: nat,
)
    requires
        ordinal + n + m <= u64::MAX,
    ensures
        entries(bytes, base, start, ordinal, profile, ceiling, n + m) == entries(
            bytes,
            base,
            start,
            ordinal,
            profile,
            ceiling,
            n,
        ) + entries(bytes, base, position(bytes, start, n), (ordinal + n) as u64, profile, ceiling, m),
    decreases m,
{
    let first = entries(bytes, base, start, ordinal, profile, ceiling, n);
    if m == 0 {
        assert(first + entries(bytes, base, position(bytes, start, n), (ordinal + n) as u64, profile, ceiling, 0)
            =~= first);
    } else {
        let less = (m - 1) as nat;
        lemma_batches_compose(bytes, base, start, ordinal, profile, ceiling, n, less);
        lemma_positions_compose(bytes, start, n, less);
        assert((n + m - 1) as nat == n + less);
        assert(entries(bytes, base, start, ordinal, profile, ceiling, n + m) =~= first + entries(
            bytes,
            base,
            position(bytes, start, n),
            (ordinal + n) as u64,
            profile,
            ceiling,
            m,
        ));
    }
}

/// Ordinals are dense: record `k` of a stream, record or issue, carries the first ordinal plus `k`.
pub proof fn lemma_ordinals_are_dense(
    bytes: Seq<u8>,
    base: u64,
    start: int,
    ordinal: u64,
    profile: NdjsonProfile,
    ceiling: u64,
    k: nat,
)
    requires
        ordinal + k <= u64::MAX,
        nth_outcome(bytes, base, start, ordinal, profile, ceiling, k) is Entry,
    ensures
        match nth_outcome(bytes, base, start, ordinal, profile, ceiling, k)->Entry_0 {
            RecordEntry::Record { ordinal: own, .. } => own == ordinal + k,
            RecordEntry::Issue { ordinal: own, .. } => own == ordinal + k,
        },
{
}

/// A recovering stream never stops: every record comes to an entry.
pub proof fn lemma_recovering_never_stops(bytes: Seq<u8>, base: u64, start: int, ordinal: u64, ceiling: u64)
    ensures
        outcome_of(bytes, base, start, ordinal, NdjsonProfile::Recovering, ceiling) is Entry,
{
}

/// Where neither profile finds a fault but a missing final terminator, they agree: a strict stream's record is the
/// recovering stream's too.
pub proof fn lemma_profiles_agree_on_records(bytes: Seq<u8>, base: u64, start: int, ordinal: u64, ceiling: u64)
    requires
        outcome_of(bytes, base, start, ordinal, NdjsonProfile::Strict, ceiling) is Entry,
    ensures
        outcome_of(bytes, base, start, ordinal, NdjsonProfile::Strict, ceiling) == outcome_of(
            bytes,
            base,
            start,
            ordinal,
            NdjsonProfile::Recovering,
            ceiling,
        ),
{
}

/// A published payload is one line's: it holds no line feed and no carriage return, is not blank, and is no longer than
/// the ceiling.
pub proof fn lemma_payloads_are_lines(
    bytes: Seq<u8>,
    base: u64,
    start: int,
    ordinal: u64,
    profile: NdjsonProfile,
    ceiling: u64,
)
    requires
        0 <= start < bytes.len() <= usize::MAX,
        outcome_of(bytes, base, start, ordinal, profile, ceiling) matches Outcome::Entry(RecordEntry::Record { .. }, _),
    ensures
        ({
            let unit = unit_of(bytes, start);
            let payload = bytes.subrange(start, unit.payload_end as int);
            &&& forall|i: int| 0 <= i < payload.len() ==> #[trigger] payload[i] != LF && payload[i] != CR
            &&& !blank(payload)
            &&& payload.len() <= ceiling
        }),
{
    crate::byte_scan::lemma_run_end(bytes, start, StopSet::NdjsonFrame);
    let unit = unit_of(bytes, start);
    let payload = bytes.subrange(start, unit.payload_end as int);
    let end = run_end(bytes, start, StopSet::NdjsonFrame);
    assert(unit.payload_end == end);
    assert forall|i: int| 0 <= i < payload.len() implies #[trigger] payload[i] != LF && payload[i] != CR by {
        assert(payload[i] == bytes[start + i]);
        assert(!StopSet::NdjsonFrame.stops(bytes[start + i]));
    }
}

} // verus!
