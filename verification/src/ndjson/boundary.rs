//! Physical NDJSON boundary discovery over contiguous retained input.
//!
//! A JSON string cannot contain a raw line feed or carriage return, so record boundaries need no quote-state machine at
//! all: the first LF or CR at or after the record's start decides the record's fate.

use vstd::prelude::*;

use crate::ascii::LF;

use crate::byte_scan::{run_end, scan_to, StopSet};

verus! {

/// What the first framing byte at or after a record's start proves.
#[derive(Clone, Copy, Debug, PartialEq, Eq, Structural)]
pub enum Frame {
    /// A line feed terminates the record.
    Lf {
        /// The line feed's index.
        lf: usize,
    },
    /// A carriage return immediately followed by a line feed terminates the record.
    CrLf {
        /// The carriage return's index.
        cr: usize,
    },
    /// A carriage return that is NOT immediately followed by a line feed: a framing fault where it stands.
    BareCr {
        /// The carriage return's index.
        cr: usize,
    },
    /// No framing byte before end of input.
    Unterminated,
}

/// What the first framing byte at or after `start` proves.
pub open spec fn frame_of(bytes: Seq<u8>, start: int) -> Frame {
    let at = run_end(bytes, start, StopSet::NdjsonFrame);
    if at >= bytes.len() {
        Frame::Unterminated
    } else if bytes[at] == LF {
        Frame::Lf { lf: at as usize }
    } else if at + 1 < bytes.len() && bytes[at + 1] == LF {
        Frame::CrLf { cr: at as usize }
    } else {
        Frame::BareCr { cr: at as usize }
    }
}

/// Index of the first `LF` or `CR` at or after `from`, or `None`.
fn find_framing_byte(bytes: &[u8], from: usize) -> (at: Option<usize>)
    requires
        from <= bytes.len(),
    ensures
        match at {
            Some(at) => at == run_end(bytes@, from as int, StopSet::NdjsonFrame) && from <= at < bytes.len(),
            None => run_end(bytes@, from as int, StopSet::NdjsonFrame) == bytes.len(),
        },
{
    let at = scan_to(StopSet::NdjsonFrame, bytes, from);
    if at < bytes.len() {
        Some(at)
    } else {
        None
    }
}

/// Classifies the record that starts at `start` within `bytes`.
pub fn frame_at(bytes: &[u8], start: usize) -> (frame: Frame)
    requires
        start <= bytes.len(),
    ensures
        frame == frame_of(bytes@, start as int),
{
    let index = match find_framing_byte(bytes, start) {
        Some(index) => index,
        None => return Frame::Unterminated,
    };
    proof {
        crate::byte_scan::lemma_run_end(bytes@, start as int, StopSet::NdjsonFrame);
    }
    if bytes[index] == LF {
        return Frame::Lf { lf: index };
    }
    if index < bytes.len() - 1 && bytes[index + 1] == LF {
        Frame::CrLf { cr: index }
    } else {
        Frame::BareCr { cr: index }
    }
}

} // verus!
