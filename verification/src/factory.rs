//! Encoder factories: what a request's target and options make of an encoder.

use vstd::prelude::*;

use crate::encode_text::push_all;
use crate::error::CodecFailureKind;
use crate::jsonc::options::JsoncEncodeOptions;
use crate::options::{JsonEncodeOptions, NdjsonEncodeOptions};
use crate::render::{compact_style, EncodeConfig, RenderStyle};
use crate::text::same_text;

verus! {

/// The encoder options that a request carries.
#[derive(Clone, Copy, Debug, PartialEq, Eq, Structural)]
pub enum RequestOptions {
    /// None: the codec's own defaults hold.
    Absent,
    /// Strict JSON's.
    Json(JsonEncodeOptions),
    /// JSONC's.
    Jsonc(JsoncEncodeOptions),
    /// NDJSON's.
    Ndjson(NdjsonEncodeOptions),
    /// Another codec's.
    Foreign,
}

/// Checks that a request names THIS codec's target. Options are deliberately not inspected here.
pub fn validate_target(format: &str, dialect: &str, own_format: &str, own_dialect: &str) -> (checked: Result<
    (),
    CodecFailureKind,
>)
    ensures
        checked == if format@ == own_format@ && dialect@ == own_dialect@ {
            Ok::<(), CodecFailureKind>(())
        } else {
            Err(CodecFailureKind::RequirementMismatch)
        },
{
    if !same_text(format, own_format) || !same_text(dialect, own_dialect) {
        Err(CodecFailureKind::RequirementMismatch)
    } else {
        Ok(())
    }
}

/// The strict JSON options a request comes to: the defaults where it carries none, its own where they are strict JSON's,
/// and a mismatch rather than a silent default where they are another codec's.
pub fn encode_options(options: RequestOptions) -> (style: Result<JsonEncodeOptions, CodecFailureKind>)
    ensures
        style == match options {
            RequestOptions::Absent => Ok::<JsonEncodeOptions, CodecFailureKind>(compact_style(0).options),
            RequestOptions::Json(options) => Ok(options),
            _ => Err(CodecFailureKind::RequirementMismatch),
        },
{
    match options {
        RequestOptions::Absent => Ok(JsonEncodeOptions::default()),
        RequestOptions::Json(options) => Ok(options),
        _ => Err(CodecFailureKind::RequirementMismatch),
    }
}

impl EncodeConfig {
    /// Whether this is the configuration with this style, prefix and framing.
    pub open spec fn is(self, render: RenderStyle, prefix: Seq<u8>, framing: Seq<u8>) -> bool {
        self.render == render && self.prefix@ == prefix && self.framing@ == framing
    }

    /// Whether the encoder's output is compact JSON with key order and spelling unchanged and nothing around it.
    pub fn emits_canonical_form(&self) -> (canonical: bool)
        ensures
            canonical == (self.prefix@.len() == 0 && self.framing@.len() == 0 && self.render.options.indent
                == crate::options::JsonIndent::Compact && !self.render.options.sort_keys
                && !self.render.options.ascii_output && !self.render.options.raw_strings),
    {
        self.prefix.len() == 0 && self.framing.len() == 0 && self.render.options.emits_canonical_form()
    }
}

/// The style strict JSON writes under.
pub open spec fn strict_style(options: JsonEncodeOptions, max_nesting_depth: usize) -> RenderStyle {
    RenderStyle { options, comments: false, trailing_commas: false, max_nesting_depth }
}

/// The style a commented dialect writes under.
pub open spec fn commented_style(
    options: JsonEncodeOptions,
    trailing_commas: bool,
    max_nesting_depth: usize,
) -> RenderStyle {
    RenderStyle { options, comments: true, trailing_commas, max_nesting_depth }
}

/// An encoder whose items get `prefix` before every ROOT value (except a raw-printed root string) and `framing` behind,
/// under the caller's own style: the record-separated sequence's entry.
pub fn create_prefixed_framed_factory(
    prefix: &[u8],
    framing: &[u8],
    style: JsonEncodeOptions,
    max_nesting_depth: usize,
) -> (config: EncodeConfig)
    ensures
        config.is(strict_style(style, max_nesting_depth), prefix@, framing@),
{
    let mut config = EncodeConfig {
        render: RenderStyle { options: style, comments: false, trailing_commas: false, max_nesting_depth },
        prefix: Vec::new(),
        framing: Vec::new(),
    };
    push_all(&mut config.prefix, prefix);
    push_all(&mut config.framing, framing);
    assert(config.prefix@ =~= prefix@);
    assert(config.framing@ =~= framing@);
    config
}

/// An encoder that ignores any style a request names and always writes compact bytes with `framing` behind: the record
/// stream's entry. A framed record must occupy exactly one line for its terminator to mean what it says.
pub fn create_compact_framed_factory(framing: &[u8], max_nesting_depth: usize) -> (config: EncodeConfig)
    ensures
        config.is(compact_style(max_nesting_depth), seq![], framing@),
{
    let config = create_prefixed_framed_factory(&[], framing, JsonEncodeOptions::default(), max_nesting_depth);
    assert(config.prefix@ =~= seq![]);
    config
}

/// The strict JSON encoder of a request: its target must be this codec's, and its options strict JSON's or none.
pub fn create_factory(
    format: &str,
    dialect: &str,
    own_format: &str,
    own_dialect: &str,
    options: RequestOptions,
    max_nesting_depth: usize,
) -> (config: Result<EncodeConfig, CodecFailureKind>)
    ensures
        match config {
            Ok(config) => {
                &&& format@ == own_format@ && dialect@ == own_dialect@
                &&& match options {
                    RequestOptions::Absent => config.is(compact_style(max_nesting_depth), seq![], seq![]),
                    RequestOptions::Json(style) => config.is(strict_style(style, max_nesting_depth), seq![], seq![]),
                    _ => false,
                }
            },
            Err(kind) => {
                &&& kind == CodecFailureKind::RequirementMismatch
                &&& format@ == own_format@ && dialect@ == own_dialect@ ==> !(options is Absent) && !(options is Json)
            },
        },
{
    match validate_target(format, dialect, own_format, own_dialect) {
        Ok(_) => {}
        Err(kind) => return Err(kind),
    }
    match encode_options(options) {
        Ok(style) => {
            let config = create_prefixed_framed_factory(&[], &[], style, max_nesting_depth);
            assert(config.prefix@ =~= seq![]);
            assert(config.framing@ =~= seq![]);
            Ok(config)
        }
        Err(kind) => Err(kind),
    }
}

/// The encoder of a commented dialect: comments written, and trailing commas as the dialect has it.
pub fn create_commented_factory(style: JsonEncodeOptions, trailing_commas: bool, max_nesting_depth: usize) -> (config:
    EncodeConfig)
    ensures
        config.is(commented_style(style, trailing_commas, max_nesting_depth), seq![], seq![]),
{
    let config = EncodeConfig {
        render: RenderStyle { options: style, comments: true, trailing_commas, max_nesting_depth },
        prefix: Vec::new(),
        framing: Vec::new(),
    };
    assert(config.prefix@ =~= seq![]);
    assert(config.framing@ =~= seq![]);
    config
}

} // verus!
