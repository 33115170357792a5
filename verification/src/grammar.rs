//! The grammar dials that separate strict JSON from its dialects.

use vstd::prelude::*;

verus! {

/// Which extensions of strict JSON a scan or a parse accepts.
#[derive(Clone, Copy, Debug, PartialEq, Eq, Structural)]
pub struct JsonGrammar {
    /// Whether `//` and `/* */` comments are trivia.
    pub comments: bool,
    /// Whether a comma may stand before a closing delimiter.
    pub trailing_commas: bool,
    /// Whether lenient number spellings are accepted.
    pub lenient: bool,
    /// Whether the whole JSON5 grammar rides.
    pub json5: bool,
}

impl JsonGrammar {
    /// Strict RFC 8259: every dial off.
    pub fn strict() -> (grammar: JsonGrammar)
        ensures
            grammar == (JsonGrammar { comments: false, trailing_commas: false, lenient: false, json5: false }),
    {
        JsonGrammar { comments: false, trailing_commas: false, lenient: false, json5: false }
    }
}

/// The grammar a deferred strict span is read back under: strict JSON with the request's leniency, the grammar its
/// validating scan accepted it under.
pub fn session_grammar(lenient: bool) -> (grammar: JsonGrammar)
    ensures
        grammar == (JsonGrammar { comments: false, trailing_commas: false, lenient, json5: false }),
{
    JsonGrammar { lenient, ..JsonGrammar::strict() }
}

/// The grammar a commented dialect's text is read under: comments are always trivia, and the dialect says the rest.
pub fn commented_grammar(trailing_commas: bool, json5: bool, lenient: bool) -> (grammar: JsonGrammar)
    ensures
        grammar == (JsonGrammar { comments: true, trailing_commas, lenient, json5 }),
{
    JsonGrammar { comments: true, trailing_commas, lenient, json5 }
}

} // verus!
