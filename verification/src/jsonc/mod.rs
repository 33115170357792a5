//! JSONC: JSON plus `//` and `/* */` comments, with or without trailing commas.
//!
//! Comments are trivia to the grammar and leading facts to the document; an edit never orphans the comment above the
//! member that follows, and a removal takes its own leading comment block with it.

use vstd::prelude::*;

use crate::error::CodecFailureKind;
use crate::factory::{commented_style, create_commented_factory, RequestOptions};
use crate::options::JsonEncodeOptions;
use crate::render::{compact_style, EncodeConfig};
use crate::text::same_text;

pub mod comment_laws;
pub mod comments;
pub mod encode;
pub mod growth_laws;
pub mod index;
pub mod index_laws;
pub mod laws;
pub mod members;
pub mod options;
pub mod provider;
pub mod removal_laws;
pub mod seam;
pub mod style_laws;

pub use crate::jsonc::options::{JsoncEncodeOptions, JsoncEncodeProfile};

verus! {

/// Stable JSONC format identity text.
pub const FORMAT_ID: &'static str = "jsonc";

/// The default dialect: comments AND trailing commas.
pub const TRAILING_DIALECT_ID: &'static str = "jsonc.trailing@1";

/// The strict-comma dialect: comments, no trailing commas.
pub const DEFAULT_DIALECT_ID: &'static str = "jsonc.default@1";

/// The edit-render output dialect: what an edit's whole-document re-encode renders with.
pub const JQF_1_0_DIALECT_ID: &'static str = "jsonc.jqf-1.0@1";

/// The trailing-comma output profile identity.
pub const TRAILING_JQF_DIALECT_ID: &'static str = "jsonc.trailing-jqf@1";

/// The strict-comma output profile identity.
pub const DEFAULT_JQF_DIALECT_ID: &'static str = "jsonc.default-jqf@1";

/// Whether the JSONC registration names `dialect`.
pub open spec fn names_dialect(dialect: Seq<char>) -> bool {
    ||| dialect == TRAILING_DIALECT_ID@
    ||| dialect == DEFAULT_DIALECT_ID@
    ||| dialect == TRAILING_JQF_DIALECT_ID@
    ||| dialect == DEFAULT_JQF_DIALECT_ID@
    ||| dialect == JQF_1_0_DIALECT_ID@
}

/// Checks that a request names the JSONC format and one of its dialects.
pub fn expect_target(format: &str, dialect: &str) -> (checked: Result<(), CodecFailureKind>)
    ensures
        checked == if format@ == FORMAT_ID@ && names_dialect(dialect@) {
            Ok::<(), CodecFailureKind>(())
        } else {
            Err(CodecFailureKind::RequirementMismatch)
        },
{
    let named = same_text(dialect, TRAILING_DIALECT_ID) || same_text(dialect, DEFAULT_DIALECT_ID) || same_text(
        dialect,
        TRAILING_JQF_DIALECT_ID,
    ) || same_text(dialect, DEFAULT_JQF_DIALECT_ID) || same_text(dialect, JQF_1_0_DIALECT_ID);
    if same_text(format, FORMAT_ID) && named {
        Ok(())
    } else {
        Err(CodecFailureKind::RequirementMismatch)
    }
}

/// The output profile that `dialect` renders with.
pub open spec fn profile_of(dialect: Seq<char>) -> JsoncEncodeProfile {
    if dialect == TRAILING_DIALECT_ID@ || dialect == TRAILING_JQF_DIALECT_ID@ {
        JsoncEncodeProfile::Trailing
    } else {
        JsoncEncodeProfile::Default
    }
}

/// The output profile the named dialect renders with: the trailing spellings write trailing commas, and every other
/// accepted spelling keeps strict JSON's comma law. A request that names a dialect without encoder options still gets
/// bytes that dialect re-reads.
pub fn dialect_profile(dialect: &str) -> (profile: JsoncEncodeProfile)
    ensures
        profile == profile_of(dialect@),
{
    if same_text(dialect, TRAILING_DIALECT_ID) || same_text(dialect, TRAILING_JQF_DIALECT_ID) {
        JsoncEncodeProfile::Trailing
    } else {
        JsoncEncodeProfile::Default
    }
}

/// The JSONC options a request comes to.
pub open spec fn requested_options(dialect: Seq<char>, options: RequestOptions) -> Option<JsoncEncodeOptions> {
    match options {
        RequestOptions::Absent => Some(
            JsoncEncodeOptions { style: compact_style(0).options, profile: profile_of(dialect) },
        ),
        RequestOptions::Jsonc(options) => Some(options),
        _ => None,
    }
}

/// The JSONC options a request comes to: the profile its DIALECT names where it carries none, its own where they are
/// JSONC's, and a mismatch where they are another codec's.
pub fn encode_options(dialect: &str, options: RequestOptions) -> (read: Result<JsoncEncodeOptions, CodecFailureKind>)
    ensures
        read == match requested_options(dialect@, options) {
            Some(options) => Ok::<JsoncEncodeOptions, CodecFailureKind>(options),
            None => Err(CodecFailureKind::RequirementMismatch),
        },
{
    match options {
        RequestOptions::Absent => Ok(
            JsoncEncodeOptions { style: JsonEncodeOptions::default(), profile: dialect_profile(dialect) },
        ),
        RequestOptions::Jsonc(options) => Ok(options),
        _ => Err(CodecFailureKind::RequirementMismatch),
    }
}

/// The JSONC encoder of a request: its target must be JSONC's, and its options JSONC's or none.
pub fn create_factory(format: &str, dialect: &str, options: RequestOptions, max_nesting_depth: usize) -> (config: Result<
    EncodeConfig,
    CodecFailureKind,
>)
    ensures
        match config {
            Ok(config) => {
                &&& format@ == FORMAT_ID@ && names_dialect(dialect@)
                &&& requested_options(dialect@, options) matches Some(options) && config.is(
                    commented_style(
                        options.style,
                        options.profile == JsoncEncodeProfile::Trailing,
                        max_nesting_depth,
                    ),
                    seq![],
                    seq![],
                )
            },
            Err(kind) => {
                &&& kind == CodecFailureKind::RequirementMismatch
                &&& format@ == FORMAT_ID@ && names_dialect(dialect@) ==> requested_options(dialect@, options) is None
            },
        },
{
    match expect_target(format, dialect) {
        Ok(_) => {}
        Err(kind) => return Err(kind),
    }
    match encode_options(dialect, options) {
        Ok(options) => Ok(create_commented_factory(options.style, options.trailing_commas(), max_nesting_depth)),
        Err(kind) => Err(kind),
    }
}

} // verus!
