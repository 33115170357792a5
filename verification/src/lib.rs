//! The JSON family of codecs: strict JSON, its commented dialects, and newline-delimited record streams.
//!
//! Every item here is plain computation over bytes and small values, with its behaviour stated in a contract and proved.

pub mod ascii;
pub mod batch_laws;
pub mod byte_scan;
pub mod count_filter;
pub mod decimal_laws;
pub mod dialect_laws;
pub mod edit;
pub mod edit_laws;
pub mod edit_style_laws;
pub mod edit_support;
pub mod element_batch;
pub mod encode;
pub mod encode_text;
pub mod error;
pub mod escape_laws;
pub mod factory;
pub mod filter_laws;
pub mod grammar;
pub mod growth_laws;
pub mod json5;
pub mod json_escape;
pub mod jsonc;
pub mod key_laws;
pub mod lazy;
pub mod lex;
pub mod lex_laws;
pub mod ndjson;
pub mod number;
pub mod number_laws;
pub mod options;
pub mod order_laws;
pub mod plan_laws;
pub mod reading_laws;
pub mod removal_laws;
pub mod render;
pub mod render_laws;
pub mod render_style_laws;
pub mod report_laws;
pub mod setting_laws;
pub mod shape;
pub mod text;
pub mod text_laws;
pub mod trivia_laws;
pub mod utf8_laws;
pub mod value;

pub use crate::json_escape::{json_escape_byte, push_json_escaped};
pub use crate::options::{JsonEncodeOptions, JsonIndent, VALUE_SEPARATORS};
