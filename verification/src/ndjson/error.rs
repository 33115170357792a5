//! NDJSON framing faults: their codes, their texts, and where they point.

use vstd::prelude::*;

verus! {

/// The framing faults a record stream can report.
#[derive(Clone, Copy, Debug, PartialEq, Eq, Structural)]
pub enum RecordIssueCode {
    /// A record holds no value.
    BlankRecord,
    /// The stream starts with a byte-order mark.
    InitialByteOrderMark,
    /// A carriage return does not terminate its record.
    BareCarriageReturn,
    /// A payload is not one complete text.
    MalformedPayload,
    /// A record exceeds the per-record byte ceiling.
    OversizeRecord,
    /// The final record has no terminator.
    MissingFinalTerminator,
    /// A top-level scalar was cut short.
    TruncatedTopLevelScalar,
    /// Input stands outside any record.
    UnframedInput,
}

/// The stable diagnostic code and message for one framing fault. The codes an NDJSON stream never reports share one
/// answer: both profiles accept a complete final record with no terminator, and the other two belong to another framing.
#[must_use]
pub fn framing_text(code: RecordIssueCode) -> (text: (&'static str, &'static str))
    ensures
        match code {
            RecordIssueCode::BlankRecord => text.0@ == "blank-record"@ && text.1@
                == "NDJSON record holds no value; the strict profile forbids blank records"@,
            RecordIssueCode::InitialByteOrderMark => text.0@ == "initial-byte-order-mark"@ && text.1@
                == "NDJSON stream starts with a byte-order mark; the strict profile forbids it"@,
            RecordIssueCode::BareCarriageReturn => text.0@ == "bare-carriage-return"@ && text.1@
                == "NDJSON payload holds a carriage return that does not terminate the record"@,
            RecordIssueCode::MalformedPayload => text.0@ == "malformed-record-payload"@ && text.1@
                == "NDJSON record payload is not one complete strict-JSON text"@,
            RecordIssueCode::OversizeRecord => text.0@ == "record-too-large"@ && text.1@
                == "NDJSON record exceeds the per-record byte ceiling"@,
            _ => text.0@ == "unexpected-framing-fault"@ && text.1@
                == "a framing fault this NDJSON stream cannot raise was reported"@,
        },
{
    match code {
        RecordIssueCode::BlankRecord => (
            "blank-record",
            "NDJSON record holds no value; the strict profile forbids blank records",
        ),
        RecordIssueCode::InitialByteOrderMark => (
            "initial-byte-order-mark",
            "NDJSON stream starts with a byte-order mark; the strict profile forbids it",
        ),
        RecordIssueCode::BareCarriageReturn => (
            "bare-carriage-return",
            "NDJSON payload holds a carriage return that does not terminate the record",
        ),
        RecordIssueCode::MalformedPayload => (
            "malformed-record-payload",
            "NDJSON record payload is not one complete strict-JSON text",
        ),
        RecordIssueCode::OversizeRecord => ("record-too-large", "NDJSON record exceeds the per-record byte ceiling"),
        RecordIssueCode::MissingFinalTerminator | RecordIssueCode::TruncatedTopLevelScalar
        | RecordIssueCode::UnframedInput => (
            "unexpected-framing-fault",
            "a framing fault this NDJSON stream cannot raise was reported",
        ),
    }
}

/// The one-byte span a fault's label covers, in absolute offsets: the faulting byte, or the source's final byte for a
/// fault at its end, so that no label starts past the input.
pub fn framing_span(offset: u64, source_end: u64) -> (span: (u64, u64))
    requires
        offset <= source_end,
        source_end > 0,
    ensures
        span.0 == if offset < source_end {
            offset as int
        } else {
            source_end - 1
        },
        span.1 == span.0 + 1,
        span.1 <= source_end,
{
    if offset < source_end {
        (offset, offset + 1)
    } else {
        (source_end - 1, source_end)
    }
}

} // verus!
