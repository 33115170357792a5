//! How a commented dialect is decoded: the decisions a provider makes before it opens a session.
//!
//! JSONC and JSON5 share them and differ only in the values [`CommentedSpec`] names. Slot 0 decodes the whole document;
//! slot 1 decodes the value at one exact path.

use vstd::prelude::*;

use crate::error::CodecFailureKind;
use crate::jsonc::{DEFAULT_DIALECT_ID, TRAILING_DIALECT_ID};
use crate::text::same_text;

verus! {

/// What separates one commented dialect's decode from the other's.
#[derive(Clone, Copy, Debug, PartialEq, Eq, Structural)]
pub struct CommentedSpec {
    /// Whether the grammar accepts a trailing comma: a JSON5 feature always, a JSONC dialect choice.
    pub trailing_commas: bool,
    /// Whether the whole JSON5 grammar rides.
    pub json5: bool,
    /// Whether a leading byte-order mark is consumed as a source prefix. JSONC needs it: its files are written by
    /// editors. JSON5 accepts U+FEFF as whitespace instead.
    pub consume_bom: bool,
}

/// The decode of the JSONC dialect that a request names: the dialect picks the trailing-comma bit, and any other dialect
/// is refused.
pub fn jsonc_spec(dialect: &str) -> (spec: Result<CommentedSpec, CodecFailureKind>)
    ensures
        spec == if dialect@ == TRAILING_DIALECT_ID@ {
            Ok::<CommentedSpec, CodecFailureKind>(
                CommentedSpec { trailing_commas: true, json5: false, consume_bom: true },
            )
        } else if dialect@ == DEFAULT_DIALECT_ID@ {
            Ok(CommentedSpec { trailing_commas: false, json5: false, consume_bom: true })
        } else {
            Err(CodecFailureKind::RequirementMismatch)
        },
{
    if same_text(dialect, TRAILING_DIALECT_ID) {
        Ok(CommentedSpec { trailing_commas: true, json5: false, consume_bom: true })
    } else if same_text(dialect, DEFAULT_DIALECT_ID) {
        Ok(CommentedSpec { trailing_commas: false, json5: false, consume_bom: true })
    } else {
        Err(CodecFailureKind::RequirementMismatch)
    }
}

/// What a request asks to be told.
#[derive(Clone, Copy, Debug, PartialEq, Eq, Structural)]
pub enum DiagnosticPolicy {
    Off,
    ErrorsOnly,
    All,
}

/// What a decode records of its diagnostics.
#[derive(Clone, Copy, Debug, PartialEq, Eq, Structural)]
pub enum DiagnosticCoverage {
    NotRequested,
    AuthoritativeEmpty,
}

/// What a request does with a document's facts.
#[derive(Clone, Copy, Debug, PartialEq, Eq, Structural)]
pub enum FactIntent {
    Ignore,
    Preserve,
}

/// The coverage one requirement decodes under: what is recorded of diagnostics, and whether facts are attached. Comment
/// facts arm where the request preserves them, besides where the rest of the requirement already asks for facts.
pub fn decode_shape(diagnostics: DiagnosticPolicy, intent: FactIntent, required_facts: bool) -> (shape: (
    DiagnosticCoverage,
    bool,
))
    ensures
        shape.0 == if diagnostics == DiagnosticPolicy::All {
            DiagnosticCoverage::AuthoritativeEmpty
        } else {
            DiagnosticCoverage::NotRequested
        },
        shape.1 == (required_facts || intent == FactIntent::Preserve),
{
    let coverage = match diagnostics {
        DiagnosticPolicy::Off => DiagnosticCoverage::NotRequested,
        DiagnosticPolicy::ErrorsOnly => DiagnosticCoverage::NotRequested,
        DiagnosticPolicy::All => DiagnosticCoverage::AuthoritativeEmpty,
    };
    let facts = match intent {
        FactIntent::Preserve => true,
        FactIntent::Ignore => required_facts,
    };
    (coverage, facts)
}

/// The reader that reads a deferred span back: the grammar it reads under, and whether it attaches comment facts.
#[derive(Clone, Copy, Debug, PartialEq, Eq, Structural)]
pub struct SpanReader {
    pub trailing_commas: bool,
    pub json5: bool,
    pub attach_facts: bool,
}

/// The reader of a commented dialect's deferred spans. JSON5 accepts trailing commas whatever was asked.
pub fn commented_span_materializer(trailing_commas: bool, json5: bool, attach_facts: bool) -> (reader: SpanReader)
    ensures
        reader == (SpanReader { trailing_commas: json5 || trailing_commas, json5, attach_facts }),
{
    SpanReader { trailing_commas: json5 || trailing_commas, json5, attach_facts }
}

/// What a document route is asked for.
#[derive(Clone, Copy, Debug, PartialEq, Eq, Structural)]
pub enum AccessResultKind {
    /// The complete document.
    CompleteDocument,
    /// The value at one path.
    Located,
    /// A stream of records.
    RecordStream,
}

/// What a requirement says of the access it wants.
#[derive(Clone, Copy, Debug, PartialEq, Eq, Structural)]
pub struct AccessShape {
    /// Whether it reads the whole document.
    pub whole: bool,
    /// Whether its schedule is the empty, complete one.
    pub empty_schedule: bool,
    /// What it wants back.
    pub result: AccessResultKind,
    /// Whether it names one exact path.
    pub exact_path: bool,
    /// Whether its schedule has one origin.
    pub singleton_origin: bool,
    /// How deep containers may be deferred.
    pub lazy_frontier: u32,
    /// Whether it names members to keep.
    pub prune: bool,
}

/// How a whole-document parse leaves out what is not asked for.
#[derive(Clone, Copy, Debug, PartialEq, Eq, Structural)]
pub enum Omission {
    /// Not at all.
    Nothing,
    /// Containers this deep are deferred.
    Frontier(u32),
    /// Members that are not named are dropped.
    Prune,
}

/// A route to open.
#[derive(Clone, Copy, Debug, PartialEq, Eq, Structural)]
pub enum OpenRoute {
    /// The whole document.
    Whole(Omission),
    /// The value at the requirement's path.
    Scoped,
}

/// Whether the access is one of the whole document.
pub open spec fn wants_whole(shape: AccessShape) -> bool {
    shape.whole && shape.empty_schedule && shape.result == AccessResultKind::CompleteDocument
}

/// Whether the access is one of the value at a path.
pub open spec fn wants_located(shape: AccessShape) -> bool {
    !shape.whole && !shape.empty_schedule && shape.result == AccessResultKind::Located && shape.exact_path
        && shape.singleton_origin
}

/// The route behind a slot. `whole` and `located` say how the requirement stands to the two shapes: `Err` with the
/// refusal where it is not one of them. A slot that is not advertised is a route mismatch.
pub fn open_route(
    slot: u16,
    shape: AccessShape,
    whole: Result<(), CodecFailureKind>,
    located: Result<(), CodecFailureKind>,
) -> (route: Result<OpenRoute, CodecFailureKind>)
    ensures
        slot == 0 ==> route == match whole {
            Ok(_) => Ok::<OpenRoute, CodecFailureKind>(
                OpenRoute::Whole(
                    if shape.lazy_frontier > 0 {
                        Omission::Frontier(shape.lazy_frontier)
                    } else if shape.prune {
                        Omission::Prune
                    } else {
                        Omission::Nothing
                    },
                ),
            ),
            Err(kind) => Err(kind),
        },
        slot == 1 ==> route == match located {
            Ok(_) => Ok::<OpenRoute, CodecFailureKind>(OpenRoute::Scoped),
            Err(kind) => Err(kind),
        },
        slot > 1 ==> route == Err::<OpenRoute, CodecFailureKind>(CodecFailureKind::ProviderRouteMismatch),
{
    if slot == 0 {
        return match whole {
            Ok(_) => {
                let omission = if shape.lazy_frontier > 0 {
                    Omission::Frontier(shape.lazy_frontier)
                } else if shape.prune {
                    Omission::Prune
                } else {
                    Omission::Nothing
                };
                Ok(OpenRoute::Whole(omission))
            }
            Err(kind) => Err(kind),
        };
    }
    if slot != 1 {
        return Err(CodecFailureKind::ProviderRouteMismatch);
    }
    match located {
        Ok(_) => Ok(OpenRoute::Scoped),
        Err(kind) => Err(kind),
    }
}

/// What a recycled session state is.
#[derive(Clone, Copy, Debug, PartialEq, Eq, Structural)]
pub enum RecycledState {
    /// A document parse.
    Parse,
    /// A scoped session, and whether it can be reset to the requirement's path.
    Scoped { takes_path: bool },
    /// Something else.
    Foreign,
}

/// The route a recycled state is armed for again, or `None` where a fresh session must be opened: the slot, the
/// requirement and the state have to agree. A recycled parse never arms a frontier: it prunes only where the requirement
/// asks for no frontier.
pub fn try_reopen_route(slot: u16, shape: AccessShape, state: RecycledState) -> (route: Option<OpenRoute>)
    ensures
        route == if slot == 0 && wants_whole(shape) && state == RecycledState::Parse {
            Some(
                OpenRoute::Whole(
                    if shape.lazy_frontier == 0 && shape.prune {
                        Omission::Prune
                    } else {
                        Omission::Nothing
                    },
                ),
            )
        } else if slot == 1 && wants_located(shape) && state == (RecycledState::Scoped { takes_path: true }) {
            Some(OpenRoute::Scoped)
        } else {
            None
        },
{
    if slot == 0 {
        if !shape.whole || !shape.empty_schedule || shape.result != AccessResultKind::CompleteDocument || state
            != RecycledState::Parse {
            return None;
        }
        let omission = if shape.lazy_frontier == 0 && shape.prune {
            Omission::Prune
        } else {
            Omission::Nothing
        };
        return Some(OpenRoute::Whole(omission));
    }
    if slot != 1 || shape.whole || shape.empty_schedule || shape.result != AccessResultKind::Located {
        return None;
    }
    if !shape.exact_path || !shape.singleton_origin {
        return None;
    }
    match state {
        RecycledState::Scoped { takes_path } => {
            if takes_path {
                Some(OpenRoute::Scoped)
            } else {
                None
            }
        }
        _ => None,
    }
}

} // verus!
