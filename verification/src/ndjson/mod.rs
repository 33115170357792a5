//! NDJSON: record streams whose payloads are strict-JSON texts, one per line.
//!
//! This module owns PHYSICAL framing — record boundaries, ordinals, terminators, the recovery law, and output framing
//! policy — and no JSON grammar. NDJSON is always an explicit request: newline-separated input is never inferred to be
//! NDJSON.

use vstd::prelude::*;

pub mod boundary;
pub mod error;
pub mod laws;
pub mod provider;
pub mod record_laws;
pub mod render;
pub mod stream;

pub use crate::options::{NdjsonDecodeOptions, NdjsonEncodeOptions, NdjsonProfile, NdjsonTerminator};

verus! {

/// Stable NDJSON format identity text.
pub const FORMAT_ID: &'static str = "ndjson";

/// The strict dialect: the first fault is terminal. The only output dialect.
pub const STRICT_DIALECT_ID: &'static str = "ndjson.strict@1";

/// The recovering dialect: framing faults become ordered issues.
pub const RECOVERING_DIALECT_ID: &'static str = "ndjson.recovering@1";

} // verus!
