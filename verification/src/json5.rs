//! JSON5: JSON plus comments, single-quoted strings, identifier keys, hex integers, and the rest of the JSON5 grammar.
//!
//! The one input dialect is the complete grammar: comments AND trailing commas are JSON5 features. Output is JSON with
//! comments, and never a trailing comma, however the input spelled its own.

use vstd::prelude::*;

use crate::error::CodecFailureKind;
use crate::factory::{commented_style, create_commented_factory, encode_options, RequestOptions};
use crate::jsonc::provider::CommentedSpec;
use crate::render::{compact_style, EncodeConfig};
use crate::text::same_text;

verus! {

/// Stable JSON5 format identity text.
pub const FORMAT_ID: &'static str = "json5";

/// The one input dialect: the complete JSON5 grammar.
pub const DOCUMENT_DIALECT_ID: &'static str = "json5.document@1";

/// The edit-render output dialect: what an edit's whole-document re-encode renders with.
pub const JQF_1_0_DIALECT_ID: &'static str = "json5.jqf-1.0@1";

/// The output profile identity.
pub const JQF_DIALECT_ID: &'static str = "json5.jqf@1";

/// Whether the JSON5 registration names `dialect`.
pub open spec fn names_dialect(dialect: Seq<char>) -> bool {
    dialect == DOCUMENT_DIALECT_ID@ || dialect == JQF_DIALECT_ID@ || dialect == JQF_1_0_DIALECT_ID@
}

/// Checks that a request names the JSON5 format and one of its dialects.
pub fn expect_target(format: &str, dialect: &str) -> (checked: Result<(), CodecFailureKind>)
    ensures
        checked == if format@ == FORMAT_ID@ && names_dialect(dialect@) {
            Ok::<(), CodecFailureKind>(())
        } else {
            Err(CodecFailureKind::RequirementMismatch)
        },
{
    let named = same_text(dialect, DOCUMENT_DIALECT_ID) || same_text(dialect, JQF_DIALECT_ID) || same_text(
        dialect,
        JQF_1_0_DIALECT_ID,
    );
    if same_text(format, FORMAT_ID) && named {
        Ok(())
    } else {
        Err(CodecFailureKind::RequirementMismatch)
    }
}

/// How JSON5 is decoded. The request must name the one input dialect. U+FEFF is JSON5 whitespace, so no byte-order mark is
/// taken off.
pub fn json5_spec(dialect: &str) -> (spec: Result<CommentedSpec, CodecFailureKind>)
    ensures
        spec == if dialect@ == DOCUMENT_DIALECT_ID@ {
            Ok::<CommentedSpec, CodecFailureKind>(
                CommentedSpec { trailing_commas: true, json5: true, consume_bom: false },
            )
        } else {
            Err(CodecFailureKind::RequirementMismatch)
        },
{
    if same_text(dialect, DOCUMENT_DIALECT_ID) {
        Ok(CommentedSpec { trailing_commas: true, json5: true, consume_bom: false })
    } else {
        Err(CodecFailureKind::RequirementMismatch)
    }
}

/// The JSON5 encoder of a request: its target must be JSON5's, and its options strict JSON's or none. It never writes a
/// trailing comma.
pub fn create_factory(format: &str, dialect: &str, options: RequestOptions, max_nesting_depth: usize) -> (config: Result<
    EncodeConfig,
    CodecFailureKind,
>)
    ensures
        match config {
            Ok(config) => {
                &&& format@ == FORMAT_ID@ && names_dialect(dialect@)
                &&& match options {
                    RequestOptions::Absent => config.is(
                        commented_style(compact_style(0).options, false, max_nesting_depth),
                        seq![],
                        seq![],
                    ),
                    RequestOptions::Json(style) => config.is(
                        commented_style(style, false, max_nesting_depth),
                        seq![],
                        seq![],
                    ),
                    _ => false,
                }
            },
            Err(kind) => {
                &&& kind == CodecFailureKind::RequirementMismatch
                &&& format@ == FORMAT_ID@ && names_dialect(dialect@) ==> !(options is Absent) && !(options is Json)
            },
        },
{
    match expect_target(format, dialect) {
        Ok(_) => {}
        Err(kind) => return Err(kind),
    }
    match encode_options(options) {
        Ok(style) => Ok(create_commented_factory(style, false, max_nesting_depth)),
        Err(kind) => Err(kind),
    }
}

} // verus!
