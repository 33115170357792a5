//! NDJSON output: one codec-owned terminator per record, atomically.
//!
//! Rendering a record's payload is strict JSON's job. This module owns only the framing POLICY: which terminator, that
//! there is exactly one, and that it joins the payload inside the encoder's own staging buffer. The recovering dialect
//! has no encode side: a request naming it for output is a target mismatch.

use vstd::prelude::*;

use crate::error::CodecFailureKind;
use crate::factory::{create_compact_framed_factory, RequestOptions};
use crate::ndjson::{FORMAT_ID, STRICT_DIALECT_ID};
use crate::options::{NdjsonEncodeOptions, NdjsonTerminator};
use crate::render::{compact_style, EncodeConfig};
use crate::text::same_text;

verus! {

/// The terminator a request asks for: LF where it carries no options.
pub open spec fn requested_terminator(options: RequestOptions) -> Option<NdjsonTerminator> {
    match options {
        RequestOptions::Absent => Some(NdjsonTerminator::Lf),
        RequestOptions::Ndjson(options) => Some(options.terminator()),
        _ => None,
    }
}

/// The NDJSON encoder of a request: compact records, each with the requested terminator behind it. The target must be
/// NDJSON's strict dialect, and the options NDJSON's or none.
pub fn create_registered_factory(
    format: &str,
    dialect: &str,
    options: RequestOptions,
    max_nesting_depth: usize,
) -> (config: Result<EncodeConfig, CodecFailureKind>)
    ensures
        match config {
            Ok(config) => {
                &&& format@ == FORMAT_ID@ && dialect@ == STRICT_DIALECT_ID@
                &&& requested_terminator(options) matches Some(terminator) && config.is(
                    compact_style(max_nesting_depth),
                    seq![],
                    terminator.spelled(),
                )
            },
            Err(kind) => {
                &&& kind == CodecFailureKind::RequirementMismatch
                &&& format@ == FORMAT_ID@ && dialect@ == STRICT_DIALECT_ID@ ==> requested_terminator(options) is None
            },
        },
{
    let options = match options {
        RequestOptions::Absent => NdjsonEncodeOptions::default(),
        RequestOptions::Ndjson(options) => options,
        _ => return Err(CodecFailureKind::RequirementMismatch),
    };
    if !same_text(format, FORMAT_ID) || !same_text(dialect, STRICT_DIALECT_ID) {
        return Err(CodecFailureKind::RequirementMismatch);
    }
    Ok(create_compact_framed_factory(options.canonical_terminator().bytes(), max_nesting_depth))
}

} // verus!
