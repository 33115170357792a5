//! JSON-family encode and decode option payloads: indentation, render style, record profiles, ceilings, and terminator
//! spellings.

use vstd::prelude::*;

use crate::ascii::{COLON, CR, LF, SPACE, TAB};
use vstd::string::StrSliceExecFns;

use crate::error::CodecFailureKind;

verus! {

/// RFC 8259 insignificant whitespace between adjacent JSON texts: space, tab, line feed, carriage return.
pub const VALUE_SEPARATORS: &'static [u8; 4] = &[0x20, 0x09, 0x0a, 0x0d];

/// Longest indentation run the JSON-family encoders write in one piece. A deeper run is written in chunks of this size,
/// so the fill is a fixed cost rather than one that scales with the nesting depth.
const SPACE_FILL: [u8; 128] = [
    0x20, 0x20, 0x20, 0x20, 0x20, 0x20, 0x20, 0x20, 0x20, 0x20, 0x20, 0x20, 0x20, 0x20, 0x20, 0x20,
    0x20, 0x20, 0x20, 0x20, 0x20, 0x20, 0x20, 0x20, 0x20, 0x20, 0x20, 0x20, 0x20, 0x20, 0x20, 0x20,
    0x20, 0x20, 0x20, 0x20, 0x20, 0x20, 0x20, 0x20, 0x20, 0x20, 0x20, 0x20, 0x20, 0x20, 0x20, 0x20,
    0x20, 0x20, 0x20, 0x20, 0x20, 0x20, 0x20, 0x20, 0x20, 0x20, 0x20, 0x20, 0x20, 0x20, 0x20, 0x20,
    0x20, 0x20, 0x20, 0x20, 0x20, 0x20, 0x20, 0x20, 0x20, 0x20, 0x20, 0x20, 0x20, 0x20, 0x20, 0x20,
    0x20, 0x20, 0x20, 0x20, 0x20, 0x20, 0x20, 0x20, 0x20, 0x20, 0x20, 0x20, 0x20, 0x20, 0x20, 0x20,
    0x20, 0x20, 0x20, 0x20, 0x20, 0x20, 0x20, 0x20, 0x20, 0x20, 0x20, 0x20, 0x20, 0x20, 0x20, 0x20,
    0x20, 0x20, 0x20, 0x20, 0x20, 0x20, 0x20, 0x20, 0x20, 0x20, 0x20, 0x20, 0x20, 0x20, 0x20, 0x20,
];

const TAB_FILL: [u8; 64] = [
    0x09, 0x09, 0x09, 0x09, 0x09, 0x09, 0x09, 0x09, 0x09, 0x09, 0x09, 0x09, 0x09, 0x09, 0x09, 0x09,
    0x09, 0x09, 0x09, 0x09, 0x09, 0x09, 0x09, 0x09, 0x09, 0x09, 0x09, 0x09, 0x09, 0x09, 0x09, 0x09,
    0x09, 0x09, 0x09, 0x09, 0x09, 0x09, 0x09, 0x09, 0x09, 0x09, 0x09, 0x09, 0x09, 0x09, 0x09, 0x09,
    0x09, 0x09, 0x09, 0x09, 0x09, 0x09, 0x09, 0x09, 0x09, 0x09, 0x09, 0x09, 0x09, 0x09, 0x09, 0x09,
];

/// Structural whitespace policy for encoded JSON.
///
/// `Compact` writes no structural whitespace. `Spaces` writes one line break per element, indented by that many spaces
/// per open container. `Tabs` indents with one tab per open container.
///
/// `Spaces(0)` writes every line break but no indentation, and is not the same as `Compact`.
#[derive(Clone, Copy, Debug, PartialEq, Eq, Structural)]
pub enum JsonIndent {
    /// No structural whitespace at all.
    Compact,
    /// One line break per element or member, indented by this many spaces per open container.
    Spaces(u8),
    /// One line break per element or member, indented by one tab per open container.
    Tabs,
}

impl Default for JsonIndent {
    fn default() -> (indent: JsonIndent)
        ensures
            indent == JsonIndent::Compact,
    {
        JsonIndent::Compact
    }
}

impl JsonIndent {
    /// The repeating fill byte run and the number of its bytes that one open container contributes, or `None` when no
    /// structural whitespace is written at all.
    #[must_use]
    pub fn fill(self) -> (fill: Option<(&'static [u8], usize)>)
        ensures
            match self {
                JsonIndent::Compact => fill is None,
                JsonIndent::Spaces(width) => fill matches Some((run, bytes)) && run@ == Seq::new(128, |i: int| SPACE)
                    && bytes == width,
                JsonIndent::Tabs => fill matches Some((run, bytes)) && run@ == Seq::new(64, |i: int| TAB) && bytes
                    == 1,
            },
    {
        match self {
            JsonIndent::Compact => None,
            JsonIndent::Spaces(width) => Some((&SPACE_FILL, width as usize)),
            JsonIndent::Tabs => Some((&TAB_FILL, 1)),
        }
    }

    /// The indentation of a line inside `depth` open containers; nothing when compact.
    pub open spec fn indentation(self, depth: nat) -> Seq<u8> {
        match self {
            JsonIndent::Compact => seq![],
            JsonIndent::Spaces(width) => Seq::new(depth * (width as nat), |i: int| SPACE),
            JsonIndent::Tabs => Seq::new(depth, |i: int| TAB),
        }
    }

    /// The bytes that separate an object key from its value: a space after the colon in every indented mode, and none
    /// when compact.
    pub open spec fn separator(self) -> Seq<u8> {
        match self {
            JsonIndent::Compact => seq![COLON],
            _ => seq![COLON, SPACE],
        }
    }

    /// The bytes that separate an object key from its value: a space after the colon in every indented mode, and none
    /// when compact.
    #[must_use]
    pub fn key_separator(self) -> (bytes: &'static [u8])
        ensures
            bytes@ == self.separator(),
    {
        match self {
            JsonIndent::Compact => &[COLON],
            _ => &[COLON, SPACE],
        }
    }
}

/// Strict-JSON encoder options. The default is compact, with every flag off.
#[derive(Clone, Copy, Debug, PartialEq, Eq, Structural)]
pub struct JsonEncodeOptions {
    /// Structural whitespace policy.
    pub indent: JsonIndent,
    /// A ROOT string item is written without quotes or escapes (its bytes verbatim); every other item, and every nested
    /// string, is written normally. `ascii_output` takes precedence: with both flags a root string is written QUOTED
    /// with non-ASCII escaped.
    pub raw_strings: bool,
    /// Every object's member keys are emitted in ascending byte order, recursively.
    pub sort_keys: bool,
    /// Every character at or above `0x80` is escaped as `\uXXXX` (a supplementary character as its surrogate pair).
    pub ascii_output: bool,
    /// Items end in a NUL byte, so a ROOT string written raw may not carry a NUL of its own. Gates a check, not a
    /// rewrite: the string is rejected rather than silently mangled.
    pub raw_output_nul: bool,
}

impl Default for JsonEncodeOptions {
    fn default() -> (options: JsonEncodeOptions)
        ensures
            options == (JsonEncodeOptions {
                indent: JsonIndent::Compact,
                raw_strings: false,
                sort_keys: false,
                ascii_output: false,
                raw_output_nul: false,
            }),
    {
        JsonEncodeOptions {
            indent: JsonIndent::Compact,
            raw_strings: false,
            sort_keys: false,
            ascii_output: false,
            raw_output_nul: false,
        }
    }
}

impl JsonEncodeOptions {
    /// Whether these options emit compact JSON with key order and spelling unchanged: the identity-encode dialect the
    /// canonical-source echo may publish. Indentation, sorting, ascii output, and raw strings each rewrite bytes the
    /// echo would otherwise copy.
    #[must_use]
    pub fn emits_canonical_form(self) -> (canonical: bool)
        ensures
            canonical == (self.indent == JsonIndent::Compact && !self.sort_keys && !self.ascii_output
                && !self.raw_strings),
    {
        let compact = match self.indent {
            JsonIndent::Compact => true,
            _ => false,
        };
        compact && !self.sort_keys && !self.ascii_output && !self.raw_strings
    }
}

/// How a request wants its input validated.
#[derive(Clone, Copy, Debug, PartialEq, Eq, Structural)]
pub enum ValidationMode {
    /// The first fault is terminal.
    Strict,
    /// Faults become issues and reading goes on.
    Recover,
}

/// One of the two sealed NDJSON profiles. There is no third, permissive profile: one that silently repairs framing would
/// make "is this NDJSON?" unanswerable.
#[derive(Clone, Copy, Debug, PartialEq, Eq, Structural)]
pub enum NdjsonProfile {
    /// `ndjson.strict@1`: the first framing or payload fault is terminal. An absent FINAL terminator is not a fault under
    /// either profile.
    Strict,
    /// `ndjson.recovering@1`: framing faults become ordered issues and the stream continues after the next physical line
    /// feed.
    Recovering,
}

impl NdjsonProfile {
    /// The profile a codec-neutral open request names.
    #[must_use]
    pub fn from_recovering(recovering: bool) -> (profile: NdjsonProfile)
        ensures
            profile == if recovering {
                NdjsonProfile::Recovering
            } else {
                NdjsonProfile::Strict
            },
    {
        if recovering {
            NdjsonProfile::Recovering
        } else {
            NdjsonProfile::Strict
        }
    }

    /// The validation mode this profile requires. A mismatched profile and validation mode is rejected BEFORE any source
    /// byte is consumed.
    #[must_use]
    pub fn validation(self) -> (mode: ValidationMode)
        ensures
            mode == match self {
                NdjsonProfile::Strict => ValidationMode::Strict,
                NdjsonProfile::Recovering => ValidationMode::Recover,
            },
    {
        match self {
            NdjsonProfile::Strict => ValidationMode::Strict,
            NdjsonProfile::Recovering => ValidationMode::Recover,
        }
    }
}

/// Exactly one normalized per-record payload ceiling: the shared body of the two dialects' read-side options.
#[derive(Clone, Copy, Debug, PartialEq, Eq, Structural)]
struct RecordPayloadCeiling {
    max_record_bytes: u64,
}

/// The ceiling a request asks for: its own, or the input ceiling where it names none.
pub open spec fn requested_ceiling(max_record_bytes: Option<u64>, input_ceiling: u64) -> u64 {
    match max_record_bytes {
        Some(requested) => requested,
        None => input_ceiling,
    }
}

impl RecordPayloadCeiling {
    fn try_new(max_record_bytes: Option<u64>, input_ceiling: u64) -> (ceiling: Result<
        RecordPayloadCeiling,
        CodecFailureKind,
    >)
        ensures
            ({
                let requested = requested_ceiling(max_record_bytes, input_ceiling);
                match ceiling {
                    Ok(ceiling) => 0 < requested <= input_ceiling && ceiling.max_record_bytes == requested,
                    Err(kind) => (requested == 0 || requested > input_ceiling) && kind
                        == CodecFailureKind::RequirementMismatch,
                }
            }),
    {
        let requested = match max_record_bytes {
            Some(requested) => requested,
            None => input_ceiling,
        };
        if requested == 0 || requested > input_ceiling {
            return Err(CodecFailureKind::RequirementMismatch);
        }
        Ok(RecordPayloadCeiling { max_record_bytes: requested })
    }
}

/// Normalized NDJSON read-side options: one per-record payload ceiling.
#[derive(Clone, Copy, Debug, PartialEq, Eq, Structural)]
pub struct NdjsonDecodeOptions(RecordPayloadCeiling);

impl NdjsonDecodeOptions {
    /// The per-record payload ceiling in bytes.
    pub closed spec fn ceiling(self) -> u64 {
        self.0.max_record_bytes
    }

    /// Normalizes a per-record byte ceiling against the request's input ceiling.
    ///
    /// The default is the request's own effective input ceiling, so an omitted option never makes a legal stream
    /// illegal. An explicit value may only make the ceiling SMALLER, and never zero.
    pub fn try_new(max_record_bytes: Option<u64>, input_ceiling: u64) -> (options: Result<
        NdjsonDecodeOptions,
        CodecFailureKind,
    >)
        ensures
            ({
                let requested = requested_ceiling(max_record_bytes, input_ceiling);
                match options {
                    Ok(options) => 0 < requested <= input_ceiling && options.ceiling() == requested,
                    Err(kind) => (requested == 0 || requested > input_ceiling) && kind
                        == CodecFailureKind::RequirementMismatch,
                }
            }),
    {
        match RecordPayloadCeiling::try_new(max_record_bytes, input_ceiling) {
            Ok(ceiling) => Ok(NdjsonDecodeOptions(ceiling)),
            Err(kind) => Err(kind),
        }
    }

    /// Effective per-record payload ceiling in bytes.
    #[must_use]
    pub fn max_record_bytes(self) -> (bytes: u64)
        ensures
            bytes == self.ceiling(),
    {
        self.0.max_record_bytes
    }
}

/// The physical bytes an NDJSON encoder writes after every record.
#[derive(Clone, Copy, Debug, PartialEq, Eq, Structural)]
pub enum NdjsonTerminator {
    /// One line feed. The default.
    Lf,
    /// One carriage return followed by one line feed.
    CrLf,
}

impl Default for NdjsonTerminator {
    fn default() -> (terminator: NdjsonTerminator)
        ensures
            terminator == NdjsonTerminator::Lf,
    {
        NdjsonTerminator::Lf
    }
}

impl NdjsonTerminator {
    /// The terminator's bytes.
    pub open spec fn spelled(self) -> Seq<u8> {
        match self {
            NdjsonTerminator::Lf => seq![LF],
            NdjsonTerminator::CrLf => seq![CR, LF],
        }
    }

    /// Resolves the canonical spelling to its bytes.
    #[must_use]
    pub fn bytes(self) -> (bytes: &'static [u8])
        ensures
            bytes@ == self.spelled(),
    {
        match self {
            NdjsonTerminator::Lf => &[LF],
            NdjsonTerminator::CrLf => &[CR, LF],
        }
    }

    /// Parses a canonical spelling (`lf` or `crlf`).
    #[must_use]
    pub fn parse(text: &str) -> (terminator: Option<NdjsonTerminator>)
        ensures
            terminator == if text@ == seq!['l', 'f'] {
                Some(NdjsonTerminator::Lf)
            } else if text@ == seq!['c', 'r', 'l', 'f'] {
                Some(NdjsonTerminator::CrLf)
            } else {
                None
            },
    {
        let len = text.unicode_len();
        if len == 2 && text.get_char(0) == 'l' && text.get_char(1) == 'f' {
            assert(text@ =~= seq!['l', 'f']);
            Some(NdjsonTerminator::Lf)
        } else if len == 4 && text.get_char(0) == 'c' && text.get_char(1) == 'r' && text.get_char(2) == 'l'
            && text.get_char(3) == 'f' {
            assert(text@ =~= seq!['c', 'r', 'l', 'f']);
            Some(NdjsonTerminator::CrLf)
        } else {
            None
        }
    }
}

/// Normalized NDJSON write-side options.
#[derive(Clone, Copy, Debug, PartialEq, Eq, Structural)]
pub struct NdjsonEncodeOptions {
    canonical_terminator: NdjsonTerminator,
}

impl Default for NdjsonEncodeOptions {
    fn default() -> (options: NdjsonEncodeOptions)
        ensures
            options.terminator() == NdjsonTerminator::Lf,
    {
        NdjsonEncodeOptions { canonical_terminator: NdjsonTerminator::Lf }
    }
}

impl NdjsonEncodeOptions {
    /// The terminator every encoded record receives.
    pub closed spec fn terminator(self) -> NdjsonTerminator {
        self.canonical_terminator
    }

    /// Selects the canonical terminator every encoded record receives.
    #[must_use]
    pub fn new(canonical_terminator: NdjsonTerminator) -> (options: NdjsonEncodeOptions)
        ensures
            options.terminator() == canonical_terminator,
    {
        NdjsonEncodeOptions { canonical_terminator }
    }

    /// The canonical terminator.
    #[must_use]
    pub fn canonical_terminator(self) -> (terminator: NdjsonTerminator)
        ensures
            terminator == self.terminator(),
    {
        self.canonical_terminator
    }
}

/// One of the two json-seq profiles.
#[derive(Clone, Copy, Debug, PartialEq, Eq, Structural)]
pub enum JsonSeqProfile {
    /// `json-seq.strict@1`: the first framing or payload fault is terminal.
    Strict,
    /// The recovering route: framing faults become ordered issues, and the stream continues after the next record
    /// separator.
    Recovering,
}

impl JsonSeqProfile {
    /// The profile a codec-neutral open request names.
    #[must_use]
    pub fn from_recovering(recovering: bool) -> (profile: JsonSeqProfile)
        ensures
            profile == if recovering {
                JsonSeqProfile::Recovering
            } else {
                JsonSeqProfile::Strict
            },
    {
        if recovering {
            JsonSeqProfile::Recovering
        } else {
            JsonSeqProfile::Strict
        }
    }

    /// The validation mode this profile requires. A mismatched profile and validation mode is rejected BEFORE any source
    /// byte is consumed.
    #[must_use]
    pub fn validation(self) -> (mode: ValidationMode)
        ensures
            mode == match self {
                JsonSeqProfile::Strict => ValidationMode::Strict,
                JsonSeqProfile::Recovering => ValidationMode::Recover,
            },
    {
        match self {
            JsonSeqProfile::Strict => ValidationMode::Strict,
            JsonSeqProfile::Recovering => ValidationMode::Recover,
        }
    }
}

/// Normalized json-seq read-side options: one per-record payload ceiling.
#[derive(Clone, Copy, Debug, PartialEq, Eq, Structural)]
pub struct JsonSeqDecodeOptions(RecordPayloadCeiling);

impl JsonSeqDecodeOptions {
    /// The per-record payload ceiling in bytes.
    pub closed spec fn ceiling(self) -> u64 {
        self.0.max_record_bytes
    }

    /// Normalizes a per-record byte ceiling against the request's input ceiling.
    ///
    /// The default is the request's own effective input ceiling, so an omitted option never makes a legal stream
    /// illegal. An explicit value may only make the ceiling SMALLER, and never zero.
    pub fn try_new(max_record_bytes: Option<u64>, input_ceiling: u64) -> (options: Result<
        JsonSeqDecodeOptions,
        CodecFailureKind,
    >)
        ensures
            ({
                let requested = requested_ceiling(max_record_bytes, input_ceiling);
                match options {
                    Ok(options) => 0 < requested <= input_ceiling && options.ceiling() == requested,
                    Err(kind) => (requested == 0 || requested > input_ceiling) && kind
                        == CodecFailureKind::RequirementMismatch,
                }
            }),
    {
        match RecordPayloadCeiling::try_new(max_record_bytes, input_ceiling) {
            Ok(ceiling) => Ok(JsonSeqDecodeOptions(ceiling)),
            Err(kind) => Err(kind),
        }
    }

    /// Effective per-record payload ceiling in bytes.
    #[must_use]
    pub fn max_record_bytes(self) -> (bytes: u64)
        ensures
            bytes == self.ceiling(),
    {
        self.0.max_record_bytes
    }
}

/// The physical bytes a json-seq encoder writes after every item.
#[derive(Clone, Copy, Debug, PartialEq, Eq, Structural)]
pub enum JsonSeqSuffix {
    /// One line feed. The RFC 7464 encoder grammar's default.
    Lf,
    /// No suffix.
    NoSuffix,
    /// One NUL byte.
    Nul,
}

impl Default for JsonSeqSuffix {
    fn default() -> (suffix: JsonSeqSuffix)
        ensures
            suffix == JsonSeqSuffix::Lf,
    {
        JsonSeqSuffix::Lf
    }
}

/// Normalized json-seq write-side options: the strict-JSON render style each item's payload is encoded under, and the
/// bytes written after every item.
#[derive(Clone, Copy, Debug, PartialEq, Eq, Structural)]
pub struct JsonSeqEncodeOptions {
    /// The strict-JSON render style each item's payload is encoded under.
    pub json: JsonEncodeOptions,
    /// The bytes written after every item.
    pub suffix: JsonSeqSuffix,
}

impl Default for JsonSeqEncodeOptions {
    fn default() -> (options: JsonSeqEncodeOptions)
        ensures
            options.suffix == JsonSeqSuffix::Lf,
            options.json.indent == JsonIndent::Compact,
            !options.json.raw_strings && !options.json.sort_keys && !options.json.ascii_output
                && !options.json.raw_output_nul,
    {
        JsonSeqEncodeOptions { json: JsonEncodeOptions::default(), suffix: JsonSeqSuffix::Lf }
    }
}

impl JsonSeqEncodeOptions {
    /// Selects the render style and the item suffix.
    #[must_use]
    pub fn new(json: JsonEncodeOptions, suffix: JsonSeqSuffix) -> (options: JsonSeqEncodeOptions)
        ensures
            options.json == json,
            options.suffix == suffix,
    {
        JsonSeqEncodeOptions { json, suffix }
    }
}

} // verus!
