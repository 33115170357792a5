//! What requests and settings come to.

use vstd::prelude::*;

use crate::error::comment_opens;
use crate::factory::{commented_style, strict_style, RequestOptions};
use crate::jsonc::options::JsoncEncodeProfile;
use crate::jsonc::provider::{wants_located, wants_whole, AccessResultKind, AccessShape};
use crate::jsonc::{profile_of, requested_options, TRAILING_DIALECT_ID, TRAILING_JQF_DIALECT_ID};
use crate::ndjson::render::requested_terminator;
use crate::options::{requested_ceiling, JsonEncodeOptions, JsonIndent, NdjsonTerminator};
use crate::value::Value;

verus! {

/// A record ceiling is the one asked for, and the input's own where none is.
pub proof fn lemma_ceiling_is_what_was_asked(asked: u64, input: u64)
    ensures
        requested_ceiling(Some(asked), input) == asked,
        requested_ceiling(None, input) == input,
{
}

/// A record ends in a line feed, behind a carriage return only where that was asked for; without options it ends in a line
/// feed alone, and with another codec's it has no ending.
pub proof fn lemma_records_end_as_asked(options: RequestOptions)
    ensures
        NdjsonTerminator::Lf.spelled() == seq![0x0au8],
        NdjsonTerminator::CrLf.spelled() == seq![0x0du8, 0x0au8],
        options is Absent ==> (requested_terminator(options) matches Some(terminator) && terminator.spelled() == seq![
            0x0au8,
        ]),
        options matches RequestOptions::Ndjson(own) ==> requested_terminator(options) == Some(own.terminator()),
        requested_terminator(options) is None <==> !(options is Absent) && !(options is Ndjson),
{
}

/// Of JSONC's dialects the two trailing ones write a comma behind the last child, and no other does. A request without
/// options is written compact, with its text as it is and its members in their own order; one with JSONC's own options is
/// written under them, and another codec's are refused.
pub proof fn lemma_jsonc_dialects_write_their_commas(dialect: Seq<char>, options: RequestOptions)
    ensures
        dialect == TRAILING_DIALECT_ID@ || dialect == TRAILING_JQF_DIALECT_ID@ <==> profile_of(dialect)
            == JsoncEncodeProfile::Trailing,
        options is Absent ==> (requested_options(dialect, options) matches Some(own) && own.profile == profile_of(dialect)
            && own.style.indent == JsonIndent::Compact && !own.style.raw_strings && !own.style.sort_keys
            && !own.style.ascii_output && !own.style.raw_output_nul),
        options matches RequestOptions::Jsonc(own) ==> requested_options(dialect, options) == Some(own),
        requested_options(dialect, options) is None <==> !(options is Absent) && !(options is Jsonc),
{
}

/// Strict JSON is written without comments and without a comma behind the last child; a commented dialect is written with
/// comments, and with that comma where asked. Neither touches the options or the nesting limit.
pub proof fn lemma_styles_differ_in_their_extras(options: JsonEncodeOptions, trailing_commas: bool, limit: usize)
    ensures
        !strict_style(options, limit).comments && !strict_style(options, limit).trailing_commas,
        commented_style(options, trailing_commas, limit).comments,
        commented_style(options, trailing_commas, limit).trailing_commas == trailing_commas,
        strict_style(options, limit).options == options && strict_style(options, limit).max_nesting_depth == limit,
        commented_style(options, trailing_commas, limit).options == options,
        commented_style(options, trailing_commas, limit).max_nesting_depth == limit,
{
}

/// No access is one of the whole document and one of the value at a path, and each asks for its own kind of result.
pub proof fn lemma_accesses_are_of_one_kind(shape: AccessShape)
    ensures
        !(wants_whole(shape) && wants_located(shape)),
        wants_whole(shape) ==> shape.result == AccessResultKind::CompleteDocument,
        wants_located(shape) ==> shape.result == AccessResultKind::Located,
        shape.whole && shape.empty_schedule && shape.result == AccessResultKind::CompleteDocument ==> wants_whole(shape),
        !shape.whole && !shape.empty_schedule && shape.result == AccessResultKind::Located && shape.exact_path
            && shape.singleton_origin ==> wants_located(shape),
        wants_located(shape) ==> shape.exact_path && shape.singleton_origin && !shape.whole && !shape.empty_schedule,
        wants_whole(shape) ==> shape.whole && shape.empty_schedule,
{
}

/// A comment opens at two slashes, or at a slash and a star.
pub proof fn lemma_comments_open_at_two_bytes(bytes: Seq<u8>, at: int)
    requires
        0 <= at,
    ensures
        comment_opens(bytes, at) <==> at + 1 < bytes.len() && (bytes.subrange(at, at + 2) == seq![0x2fu8, 0x2fu8]
            || bytes.subrange(at, at + 2) == seq![0x2fu8, 0x2au8]),
{
    if at + 1 < bytes.len() {
        let pair = bytes.subrange(at, at + 2);
        assert(pair[0] == bytes[at] && pair[1] == bytes[at + 1]);
        if comment_opens(bytes, at) {
            assert(pair =~= seq![0x2fu8, bytes[at + 1]]);
        }
    }
}

/// A bare value has no tag around it, and any number of tags around a value leave it what it is.
pub proof fn lemma_bare_values_have_no_tag(value: Value, inner: Box<Value>)
    ensures
        !(value.bare() is Tagged),
        !(value is Tagged) ==> value.bare() == value,
        value == Value::Tagged(inner) ==> value.bare() == inner.bare(),
    decreases value,
{
    if let Value::Tagged(own) = value {
        lemma_bare_values_have_no_tag(*own, own);
    }
}

} // verus!
