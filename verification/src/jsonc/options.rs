//! JSONC codec options: the output profile. The input side's grammar is a fact of the request's dialect.

use vstd::prelude::*;

use crate::options::JsonEncodeOptions;

verus! {

/// The JSONC output profile: which dialect of JSONC the encoder writes. The two differ in exactly the trailing-comma bit;
/// both write comments as `//` lines.
#[derive(Clone, Copy, Debug, PartialEq, Eq, Structural)]
pub enum JsoncEncodeProfile {
    /// `jsonc.trailing-jqf@1`: a trailing comma before every closing delimiter. The default.
    Trailing,
    /// `jsonc.default-jqf@1`: strict JSON's comma law, with comments.
    Default,
}

impl Default for JsoncEncodeProfile {
    fn default() -> (profile: JsoncEncodeProfile)
        ensures
            profile == JsoncEncodeProfile::Trailing,
    {
        JsoncEncodeProfile::Trailing
    }
}

/// JSONC encoder options: the strict JSON style options plus the output profile.
#[derive(Clone, Copy, Debug, PartialEq, Eq, Structural)]
pub struct JsoncEncodeOptions {
    /// The strict JSON render style.
    pub style: JsonEncodeOptions,
    /// Which JSONC output profile to write.
    pub profile: JsoncEncodeProfile,
}

impl Default for JsoncEncodeOptions {
    fn default() -> (options: JsoncEncodeOptions)
        ensures
            options.profile == JsoncEncodeProfile::Trailing,
            options.style.indent == crate::options::JsonIndent::Compact,
            !options.style.raw_strings && !options.style.sort_keys && !options.style.ascii_output
                && !options.style.raw_output_nul,
    {
        JsoncEncodeOptions { style: JsonEncodeOptions::default(), profile: JsoncEncodeProfile::Trailing }
    }
}

impl JsoncEncodeOptions {
    /// Whether this profile writes trailing commas.
    #[must_use]
    pub fn trailing_commas(self) -> (writes: bool)
        ensures
            writes == (self.profile == JsoncEncodeProfile::Trailing),
    {
        match self.profile {
            JsoncEncodeProfile::Trailing => true,
            JsoncEncodeProfile::Default => false,
        }
    }
}

} // verus!
