//! How an NDJSON record stream is opened.

use vstd::prelude::*;

use crate::error::CodecFailureKind;
use crate::options::{NdjsonDecodeOptions, NdjsonProfile, ValidationMode};

verus! {

/// A codec-neutral request to open a record stream.
#[derive(Clone, Copy, Debug, PartialEq, Eq, Structural)]
pub enum RecordProviderOpen {
    /// NDJSON, with the payload ceiling its runtime settled on.
    Ndjson { recovering: bool, max_record_bytes: u64 },
    /// Another record format.
    Foreign,
}

/// The profile and options that an open request names. The request's ceiling is already the settled one, so only zero is
/// refused; a request for another format is a mismatch.
pub fn create_registered_provider(open: RecordProviderOpen) -> (opened: Result<
    (NdjsonProfile, NdjsonDecodeOptions),
    CodecFailureKind,
>)
    ensures
        match opened {
            Ok((profile, options)) => open matches RecordProviderOpen::Ndjson { recovering, max_record_bytes }
                && max_record_bytes > 0 && options.ceiling() == max_record_bytes && profile == if recovering {
                NdjsonProfile::Recovering
            } else {
                NdjsonProfile::Strict
            },
            Err(kind) => kind == CodecFailureKind::RequirementMismatch && (open
                matches RecordProviderOpen::Ndjson { max_record_bytes, .. } ==> max_record_bytes == 0),
        },
{
    match open {
        RecordProviderOpen::Ndjson { recovering, max_record_bytes } => {
            match NdjsonDecodeOptions::try_new(Some(max_record_bytes), max_record_bytes) {
                Ok(options) => Ok((NdjsonProfile::from_recovering(recovering), options)),
                Err(kind) => Err(kind),
            }
        }
        RecordProviderOpen::Foreign => Err(CodecFailureKind::RequirementMismatch),
    }
}

/// Whether a profile serves a request's validation mode. A recovering framer under a strict request, or the reverse,
/// would silently rewrite the request's own contract.
pub fn profile_matches_request(profile: NdjsonProfile, validation: ValidationMode) -> (matches: bool)
    ensures
        matches == (validation == match profile {
            NdjsonProfile::Strict => ValidationMode::Strict,
            NdjsonProfile::Recovering => ValidationMode::Recover,
        }),
{
    profile.validation() == validation
}

/// The number of the physical route a profile executes: the two profiles never share one.
pub fn physical_route(profile: NdjsonProfile) -> (route: u16)
    ensures
        route == match profile {
            NdjsonProfile::Strict => 4u16,
            NdjsonProfile::Recovering => 5u16,
        },
{
    match profile {
        NdjsonProfile::Strict => 4,
        NdjsonProfile::Recovering => 5,
    }
}

} // verus!
