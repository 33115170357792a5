//! JSON encoder: the iterative session that writes one item a step at a time, with indentation, raw and ascii output,
//! sorted keys, leading comments, trailing commas, and record framing.

use vstd::prelude::*;

use crate::ascii::{
    CLOSE_BRACE, CLOSE_BRACKET, COMMA, LF, LOWER_A, LOWER_E, LOWER_F, LOWER_L, LOWER_N, LOWER_R, LOWER_S, LOWER_T,
    LOWER_U, OPEN_BRACE, OPEN_BRACKET, QUOTE, SLASH, SPACE, TAB,
};
use vstd::utf8::{
    is_char_boundary, is_char_boundary_iff_not_is_continuation_byte, is_char_boundary_start_end_of_seq,
    length_of_first_scalar, pop_first_scalar, valid_utf8, valid_utf8_split,
};

use crate::byte_scan::{find_line_end, line_end};
use crate::encode_text::{lemma_text_body_concat, push_all, push_escaped_text, push_range, quoted, text_body};
use crate::error::CodecFailureKind;
use crate::options::{JsonEncodeOptions, JsonIndent};
use crate::render::{
    bool_text, comment_block, comment_line, comment_lines, element_break, indentable, lemma_tags_leave_no_bytes,
    lemma_then_write_is_associative, line_break, null_text, render_elements, render_item, render_members, render_value,
    root_lead, EncodeConfig, Rendering,
};
use crate::text::same_bytes;
use crate::value::{
    build_object_order, bytes_of, member_order, number_bytes, pieces_from, utf8, Item, Member, NumberText, Value,
};

verus! {

/// Staged bytes are offered to the sink once there are this many.
pub const OFFER_BYTES: usize = 16_384;

/// How many bytes of a text or a number one step writes at most.
pub const TEXT_QUANTUM: usize = 256;

/// Shallower indentation is addressable where deeper is.
proof fn lemma_indentable_above(indent: JsonIndent, depth: nat, above: nat)
    requires
        indentable(indent, depth),
        above <= depth,
    ensures
        indentable(indent, above),
{
    if let JsonIndent::Spaces(width) = indent {
        assert(above * (width as nat) <= depth * (width as nat)) by (nonlinear_arith)
            requires
                above <= depth,
        ;
    }
}

/// Whether the indentation inside `depth` open containers can be addressed.
fn can_indent(indent: JsonIndent, depth: usize) -> (can: bool)
    ensures
        can == indentable(indent, depth as nat),
{
    match indent.fill() {
        Some((_, width)) => {
            assert(depth * 1 == depth) by (nonlinear_arith);
            depth.checked_mul(width).is_some()
        }
        None => true,
    }
}

/// A container being written.
#[derive(Clone, Copy)]
pub enum Container<'a> {
    /// An array.
    Array(&'a Vec<Item>),
    /// An object.
    Object(&'a Vec<Member>),
}

/// One open container: how far its children are written.
pub struct Frame<'a> {
    /// The container.
    pub container: Container<'a>,
    /// The position being written. For a sorted object this is the position in the SORTED order.
    pub index: usize,
    /// From sorted position to member index, for an object whose keys are sorted; `None` for document order.
    pub order: Option<Vec<usize>>,
}

impl<'a> Frame<'a> {
    /// How many children there are.
    pub open spec fn len(self) -> nat {
        match self.container {
            Container::Array(items) => items@.len(),
            Container::Object(members) => members@.len(),
        }
    }

    /// The order an object's members are written in.
    pub open spec fn members_order(self) -> Seq<usize> {
        match self.order {
            Some(order) => order@,
            None => Seq::new(self.len(), |i: int| i as usize),
        }
    }

    /// The frame stands at a child, and an object's order is the one its style asks for.
    pub open spec fn well_formed(self, config: EncodeConfig) -> bool {
        &&& self.index < self.len()
        &&& self.container matches Container::Object(members) ==> {
            &&& self.members_order() == member_order(members@, config.render.options.sort_keys)
            &&& self.members_order().len() == members@.len()
            &&& forall|i: int| 0 <= i < members@.len() ==> #[trigger] self.members_order()[i] < members@.len()
        }
    }

    /// The children from position `from` on.
    pub open spec fn children(self, from: int, depth: nat, config: EncodeConfig) -> Rendering {
        match self.container {
            Container::Array(items) => render_elements(*items, from, depth, config.render),
            Container::Object(members) => render_members(*members, self.members_order(), from, depth, config.render),
        }
    }

    /// The closing delimiter's byte.
    pub open spec fn closer(self) -> u8 {
        match self.container {
            Container::Array(_) => CLOSE_BRACKET,
            Container::Object(_) => CLOSE_BRACE,
        }
    }

    /// The object member the frame stands at.
    pub open spec fn member(self) -> Member {
        self.container->Object_0@[self.members_order()[self.index as int] as int]
    }
}

/// Which text a step is writing.
#[derive(Clone, Copy, Debug, PartialEq, Eq, Structural)]
pub enum TextTarget {
    /// The key of the member the top frame stands at.
    Key,
    /// The current value.
    Value,
}

/// What the next step does.
#[derive(Clone, Copy, Debug, PartialEq, Eq, Structural)]
pub enum Phase {
    /// Start the current value.
    Value,
    /// Write more of a text, from a byte offset.
    Text {
        /// Which text.
        target: TextTarget,
        /// Where it goes on.
        cursor: usize,
    },
    /// Write more of the current number, from a byte offset of one of its pieces.
    Number {
        /// Which piece.
        piece: usize,
        /// Where in the piece it goes on.
        offset: usize,
    },
    /// Finish the current value.
    FinishValue,
}

/// How faithfully one item's attached facts survive encoding.
#[derive(Clone, Copy, Debug, PartialEq, Eq, Structural)]
pub enum FactPreservation {
    /// There are none to lose.
    Exact,
    /// The item's facts are left out.
    Omitted,
    /// Some of the item's facts may be left out.
    Indeterminate,
}

/// How faithfully one aspect of an item survived encoding.
#[derive(Clone, Copy, Debug, PartialEq, Eq, Structural)]
pub enum PreservationOutcome {
    /// As it was.
    Exact,
    /// In a canonical form.
    Normalized,
    /// Left out.
    Omitted,
    /// Not known.
    Indeterminate,
}

/// How faithfully an item survived encoding, aspect by aspect.
#[derive(Clone, Copy, Debug, PartialEq, Eq, Structural)]
pub struct PreservationReport {
    /// The values' meaning.
    pub semantic_values: PreservationOutcome,
    /// Tags and attached facts.
    pub tags_and_facts: PreservationOutcome,
    /// The order of members and elements.
    pub order: PreservationOutcome,
    /// The source spelling.
    pub spelling: PreservationOutcome,
}

/// The report of an item whose rendering and facts are these. A dropped tag replaces only the EXACT reading: a tagged
/// payload published bare is a canonicalization, and the other readings already state stronger losses.
pub open spec fn report_of(float: bool, tagged: bool, facts: FactPreservation) -> PreservationReport {
    PreservationReport {
        semantic_values: if float {
            PreservationOutcome::Normalized
        } else {
            PreservationOutcome::Exact
        },
        tags_and_facts: match facts {
            FactPreservation::Exact => if tagged {
                PreservationOutcome::Normalized
            } else {
                PreservationOutcome::Exact
            },
            FactPreservation::Omitted => PreservationOutcome::Omitted,
            FactPreservation::Indeterminate => PreservationOutcome::Indeterminate,
        },
        order: PreservationOutcome::Exact,
        spelling: PreservationOutcome::Normalized,
    }
}

/// Facts about an item's document that decide how its attached facts survive.
#[derive(Clone, Copy, Debug, PartialEq, Eq, Structural)]
pub enum FactSource {
    /// An owned value carries no facts.
    Owned,
    /// A node of a document that retained `count` facts, where `count` is `None` when fact coverage was not retained.
    Located {
        /// How many facts the document holds.
        count: Option<usize>,
        /// Whether the node is the document's root.
        root: bool,
    },
}

/// How faithfully one item's attached facts survive JSON encoding. A document that did not retain attached-fact coverage,
/// or holds no fact, cannot lose any.
pub fn fact_preservation(source: FactSource) -> (facts: FactPreservation)
    ensures
        facts == match source {
            FactSource::Owned => FactPreservation::Exact,
            FactSource::Located { count, root } => if count is None || count->0 == 0 {
                FactPreservation::Exact
            } else if root {
                FactPreservation::Omitted
            } else {
                FactPreservation::Indeterminate
            },
        },
{
    match source {
        FactSource::Owned => FactPreservation::Exact,
        FactSource::Located { count, root } => match count {
            None => FactPreservation::Exact,
            Some(count) => {
                if count == 0 {
                    FactPreservation::Exact
                } else if root {
                    FactPreservation::Omitted
                } else {
                    FactPreservation::Indeterminate
                }
            }
        },
    }
}

/// Appends a line break and `depth` levels of indentation, in bounded chunks of the fill.
fn push_newline_indent(out: &mut Vec<u8>, indent: JsonIndent, depth: usize)
    requires
        indentable(indent, depth as nat),
    ensures
        final(out)@ == old(out)@ + line_break(indent, depth as nat),
{
    out.push(LF);
    if let Some((fill, width)) = indent.fill() {
        let ghost byte: u8 = if indent == JsonIndent::Tabs { TAB } else { SPACE };
        proof {
            assert(depth * 1 == depth) by (nonlinear_arith);
        }
        let total = depth * width;
        let mut remaining: usize = total;
        assert(indent.indentation(depth as nat) =~= Seq::new(total as nat, |i: int| byte));
        while remaining > 0
            invariant
                remaining <= total,
                fill.len() > 0,
                forall|i: int| 0 <= i < fill.len() ==> #[trigger] fill@[i] == byte,
                out@ =~= old(out)@ + seq![LF] + Seq::new((total - remaining) as nat, |i: int| byte),
            decreases remaining,
        {
            let chunk = if remaining < fill.len() {
                remaining
            } else {
                fill.len()
            };
            push_range(out, fill, 0, chunk);
            remaining -= chunk;
        }
    }
    assert(out@ =~= old(out)@ + line_break(indent, depth as nat));
}

/// Appends what stands before an element or a closing delimiter. Compact mode writes no element breaks at all.
fn push_break(out: &mut Vec<u8>, indent: JsonIndent, depth: usize)
    requires
        indentable(indent, depth as nat),
    ensures
        final(out)@ == old(out)@ + element_break(indent, depth as nat),
{
    match indent {
        JsonIndent::Compact => {
            assert(out@ + element_break(indent, depth as nat) =~= out@);
        }
        _ => push_newline_indent(out, indent, depth),
    }
}

/// Appends one comment text as `//` lines. The break that ends each is written even in compact mode, because a comment
/// line MUST end at a line break or it swallows what follows.
fn push_comment_text(out: &mut Vec<u8>, text: &[u8], indent: JsonIndent, depth: usize)
    requires
        indentable(indent, depth as nat),
    ensures
        final(out)@ == old(out)@ + comment_block(text@, line_break(indent, depth as nat)),
{
    let ghost ending = line_break(indent, depth as nat);
    let mut start: usize = 0;
    assert(text@.skip(0) =~= text@);
    loop
        invariant
            start <= text.len(),
            indentable(indent, depth as nat),
            ending == line_break(indent, depth as nat),
            old(out)@ + comment_block(text@, ending) == out@ + comment_block(text@.skip(start as int), ending),
        decreases text.len() - start,
    {
        let ghost rest = text@.skip(start as int);
        let ghost before = out@;
        let end = find_line_end(text, start);
        out.push(SLASH);
        out.push(SLASH);
        if end > start {
            out.push(SPACE);
            push_range(out, text, start, end);
        }
        proof {
            lemma_line_end_shifts(text@, start as int, 0);
            assert(rest.take(end - start) =~= text@.subrange(start as int, end as int));
            assert(out@ =~= before + comment_line(rest.take(end - start)));
        }
        push_newline_indent(out, indent, depth);
        if end >= text.len() {
            proof {
                assert(rest.take(end - start) =~= rest);
                assert(out@ =~= before + comment_block(rest, ending));
            }
            return;
        }
        proof {
            assert(rest.skip(end - start + 1) =~= text@.skip(end + 1));
            assert(out@ + comment_block(text@.skip(end + 1), ending) =~= before + comment_block(rest, ending));
        }
        start = end + 1;
    }
}

/// A line of a tail ends where the whole's does.
pub proof fn lemma_line_end_shifts(text: Seq<u8>, start: int, from: int)
    requires
        0 <= start <= text.len(),
        0 <= from <= text.len() - start,
    ensures
        line_end(text.skip(start), from) + start == line_end(text, start + from),
    decreases text.len() - start - from,
{
    let rest = text.skip(start);
    if from < rest.len() {
        assert(rest[from] == text[start + from]);
        if rest[from] != LF {
            lemma_line_end_shifts(text, start, from + 1);
        }
    }
}

/// Appends the comments that lead a node, as `//` lines.
fn push_comment_lines(out: &mut Vec<u8>, texts: &Vec<String>, indent: JsonIndent, depth: usize)
    requires
        indentable(indent, depth as nat),
    ensures
        final(out)@ == old(out)@ + comment_lines(texts@, line_break(indent, depth as nat)),
{
    let ghost ending = line_break(indent, depth as nat);
    let mut i: usize = 0;
    assert(texts@.take(0) =~= seq![]);
    assert(out@ + comment_lines(seq![], ending) =~= out@);
    while i < texts.len()
        invariant
            i <= texts.len(),
            indentable(indent, depth as nat),
            ending == line_break(indent, depth as nat),
            out@ == old(out)@ + comment_lines(texts@.take(i as int), ending),
        decreases texts.len() - i,
    {
        push_comment_text(out, bytes_of(&texts[i]), indent, depth);
        i += 1;
        proof {
            assert(texts@.take(i as int).drop_last() =~= texts@.take(i - 1));
            assert(out@ =~= old(out)@ + comment_lines(texts@.take(i as int), ending));
        }
    }
    assert(texts@.take(texts@.len() as int) =~= texts@);
}

/// Appends the comments that lead a node, when the encoder writes comments at all.
fn push_lead(out: &mut Vec<u8>, config: &EncodeConfig, comments: &Vec<String>, depth: usize)
    requires
        indentable(config.render.options.indent, depth as nat),
    ensures
        final(out)@ == old(out)@ + config.render.lead(comments@, depth as nat),
{
    if config.render.comments {
        push_comment_lines(out, comments, config.render.options.indent, depth);
    } else {
        assert(out@ + config.render.lead(comments@, depth as nat) =~= out@);
    }
}

/// What is left of a number from byte `offset` of its piece `piece`. An integer is one piece.
spec fn number_rest(number: NumberText, piece: int, offset: int) -> Seq<u8> {
    match number {
        NumberText::Decimal(pieces) => if piece < pieces@.len() {
            utf8(pieces@[piece]).skip(offset) + pieces_from(pieces@, piece + 1)
        } else {
            seq![]
        },
        NumberText::Integer(text) => if piece == 0 {
            utf8(text).skip(offset)
        } else {
            seq![]
        },
        NumberText::Float(text) => if piece == 0 {
            utf8(text).skip(offset)
        } else {
            seq![]
        },
    }
}

/// Whether byte `offset` of piece `piece` is a place in a number.
spec fn number_place(number: NumberText, piece: int, offset: int) -> bool {
    match number {
        NumberText::Decimal(pieces) => 0 <= piece < pieces@.len() && 0 <= offset <= utf8(pieces@[piece]).len(),
        NumberText::Integer(text) => piece == 0 && 0 <= offset <= utf8(text).len(),
        NumberText::Float(text) => piece == 0 && 0 <= offset <= utf8(text).len(),
    }
}

proof fn lemma_number_starts(number: NumberText)
    ensures
        number_rest(number, 0, 0) == number_bytes(number),
{
    match number {
        NumberText::Decimal(pieces) => {
            if pieces@.len() > 0 {
                assert(utf8(pieces@[0]).skip(0) =~= utf8(pieces@[0]));
            }
            assert(number_rest(number, 0, 0) =~= number_bytes(number));
        },
        NumberText::Integer(text) => {
            assert(utf8(text).skip(0) =~= utf8(text));
        },
        NumberText::Float(text) => {
            assert(utf8(text).skip(0) =~= utf8(text));
        },
    }
}

/// Appends up to a quantum of a text from `offset` on, and returns where it stopped.
fn push_quantum(out: &mut Vec<u8>, text: &[u8], offset: usize, budget: usize) -> (next: usize)
    requires
        offset <= text.len(),
    ensures
        offset <= next <= text.len(),
        next - offset <= budget,
        next < text.len() ==> next - offset == budget,
        final(out)@ + text@.skip(next as int) == old(out)@ + text@.skip(offset as int),
        final(out)@.len() == old(out)@.len() + (next - offset),
{
    let next = if text.len() - offset <= budget {
        text.len()
    } else {
        offset + budget
    };
    push_range(out, text, offset, next);
    assert(out@ + text@.skip(next as int) =~= old(out)@ + text@.skip(offset as int));
    next
}

/// Appends up to a quantum of a number from a place in it, and returns the place it stopped at, or `None` at its end.
fn push_number(out: &mut Vec<u8>, number: &NumberText, piece: usize, offset: usize) -> (place: Option<(usize, usize)>)
    requires
        number_place(*number, piece as int, offset as int) || (piece == 0 && offset == 0),
    ensures
        match place {
            Some((piece2, offset2)) => {
                &&& number_place(*number, piece2 as int, offset2 as int)
                &&& final(out)@ + number_rest(*number, piece2 as int, offset2 as int) == old(out)@ + number_rest(
                    *number,
                    piece as int,
                    offset as int,
                )
                &&& final(out)@.len() > old(out)@.len()
            },
            None => final(out)@ == old(out)@ + number_rest(*number, piece as int, offset as int),
        },
{
    match number {
        NumberText::Integer(text) => {
            let bytes = bytes_of(text);
            let next = push_quantum(out, bytes, offset, TEXT_QUANTUM);
            if next == bytes.len() {
                assert(bytes@.skip(next as int) =~= seq![]);
                assert(out@ + bytes@.skip(next as int) =~= out@);
                None
            } else {
                Some((0, next))
            }
        }
        NumberText::Float(text) => {
            let bytes = bytes_of(text);
            push_range(out, bytes, offset, bytes.len());
            assert(bytes@.subrange(offset as int, bytes@.len() as int) =~= bytes@.skip(offset as int));
            None
        }
        NumberText::Decimal(pieces) => {
            let mut at: usize = piece;
            let mut within: usize = offset;
            let mut budget: usize = TEXT_QUANTUM;
            while at < pieces.len() && budget > 0
                invariant
                    *number == NumberText::Decimal(*pieces),
                    budget <= TEXT_QUANTUM,
                    at < pieces.len() ==> within <= utf8(pieces@[at as int]).len(),
                    out@ + number_rest(*number, at as int, within as int) == old(out)@ + number_rest(
                        *number,
                        piece as int,
                        offset as int,
                    ),
                    out@.len() == old(out)@.len() + (TEXT_QUANTUM - budget),
                    at >= pieces.len() ==> within == 0,
                decreases pieces.len() - at, budget,
            {
                let bytes = bytes_of(&pieces[at]);
                let ghost before = out@;
                let next = push_quantum(out, bytes, within, budget);
                let ghost tail = pieces_from(pieces@, at + 1);
                assert(out@ + (bytes@.skip(next as int) + tail) =~= before + (bytes@.skip(within as int) + tail)) by {
                    assert(out@ + (bytes@.skip(next as int) + tail) =~= (out@ + bytes@.skip(next as int)) + tail);
                    assert(before + (bytes@.skip(within as int) + tail) =~= (before + bytes@.skip(within as int)) + tail);
                }
                budget -= next - within;
                if next == bytes.len() {
                    proof {
                        assert(bytes@.skip(next as int) =~= seq![]);
                        if at + 1 < pieces@.len() {
                            assert(utf8(pieces@[at + 1]).skip(0) =~= utf8(pieces@[at + 1]));
                        }
                        assert(bytes@.skip(next as int) + tail =~= number_rest(*number, at + 1, 0));
                    }
                    at += 1;
                    within = 0;
                } else {
                    within = next;
                }
            }
            if at < pieces.len() {
                Some((at, within))
            } else {
                assert(out@ + number_rest(*number, at as int, within as int) =~= out@);
                None
            }
        }
    }
}

/// The traversal of one item: the open containers, and the item being written.
pub struct JsonEncodeCursor<'a> {
    frames: Vec<Frame<'a>>,
    current: &'a Item,
}

impl<'a> JsonEncodeCursor<'a> {
    /// The traversal has not left the root of `item`.
    pub closed spec fn at_root(self, item: Item) -> bool {
        self.frames@.len() == 0 && *self.current == item
    }

    /// A traversal that stands at the root.
    pub fn new(item: &'a Item) -> (cursor: JsonEncodeCursor<'a>)
        ensures
            cursor.at_root(*item),
    {
        JsonEncodeCursor { frames: Vec::new(), current: item }
    }

    /// The member the top frame, an object's, stands at.
    fn top_member(&self, config: &EncodeConfig) -> (member: Option<&'a Member>)
        requires
            self.frames@.len() > 0,
            self.frames@.last().container is Object,
            self.frames@.last().well_formed(*config),
        ensures
            member matches Some(member) && *member == self.frames@.last().member(),
    {
        let frame = &self.frames[self.frames.len() - 1];
        let index = match &frame.order {
            Some(order) => order[frame.index],
            None => frame.index,
        };
        match frame.container {
            Container::Object(members) => Some(&members[index]),
            Container::Array(_) => None,
        }
    }
}

/// What is written after the current value, given the open containers: the rest of each and its closing delimiter, and
/// the framing at the end.
spec fn after_value(frames: Seq<Frame>, config: EncodeConfig) -> Rendering
    decreases frames.len(), 1int,
{
    if frames.len() == 0 {
        Rendering::of(config.framing@)
    } else {
        let top = frames.last();
        top.children(top.index + 1, frames.len(), config).then_write(after_children(frames, config))
    }
}

/// What is written after the last child of the top container.
spec fn after_children(frames: Seq<Frame>, config: EncodeConfig) -> Rendering
    decreases frames.len(), 0int,
    when frames.len() > 0
{
    config.render.close((frames.len() - 1) as nat, frames.last().closer()).then_write(after_value(frames.drop_last(), config))
}

/// The JSON encoder: one item's staged bytes and where its writing stands, under a configuration that outlives the item.
pub struct JsonEncoder {
    config: EncodeConfig,
    bytes: Vec<u8>,
    phase: Phase,
    finished: bool,
    normalized_semantics: bool,
    dropped_tag: bool,
    facts: FactPreservation,
}

/// What stands before a member's key text: the delimiter, the break, the comments, and the opening quote.
spec fn key_opening(config: EncodeConfig, member: Member, first: bool, depth: nat) -> Seq<u8> {
    let delimiter: Seq<u8> = if first {
        seq![OPEN_BRACE]
    } else {
        seq![COMMA]
    };
    delimiter + element_break(config.render.options.indent, depth) + config.render.lead(member.item.comments@, depth) + seq![QUOTE]
}

/// What stands from a member's key text to its value: the key, the closing quote, and the separator.
spec fn key_closing(config: EncodeConfig, key: Seq<u8>) -> Seq<u8> {
    text_body(key, config.render.options.ascii_output) + seq![QUOTE] + config.render.options.indent.separator()
}

/// A member's lead is its key's opening and closing.
proof fn lemma_member_lead(config: EncodeConfig, member: Member, first: bool, depth: nat)
    ensures
        config.render.member_lead(member, first, depth) == Rendering::of(key_opening(config, member, first, depth)).then_write(
            Rendering::of(key_closing(config, utf8(member.key))),
        ),
{
    assert(config.render.member_lead(member, first, depth) =~= Rendering::of(
        key_opening(config, member, first, depth),
    ).then_write(Rendering::of(key_closing(config, utf8(member.key)))));
}

/// Regrouping a member in front of what follows it.
proof fn lemma_regroup_member(
    before: Rendering,
    opening: Rendering,
    closing: Rendering,
    value: Rendering,
    more: Rendering,
    close: Rendering,
)
    ensures
        before.then_write(
            opening.then_write(closing).then_write(value).then_write(more).then_write(close),
        ) == before.then_write(opening).then_write(closing.then_write(value.then_write(more.then_write(close)))),
{
    assert(before.then_write(
        opening.then_write(closing).then_write(value).then_write(more).then_write(close),
    ) =~= before.then_write(opening).then_write(closing.then_write(value.then_write(more.then_write(close)))));
}

/// Appends what stands before a member's key text.
fn push_key_opening(out: &mut Vec<u8>, config: &EncodeConfig, member: &Member, first: bool, depth: usize)
    requires
        indentable(config.render.options.indent, depth as nat),
    ensures
        final(out)@ == old(out)@ + key_opening(*config, *member, first, depth as nat),
{
    if first {
        out.push(OPEN_BRACE);
    } else {
        out.push(COMMA);
    }
    push_break(out, config.render.options.indent, depth);
    push_lead(out, config, &member.item.comments, depth);
    out.push(QUOTE);
    assert(out@ =~= old(out)@ + key_opening(*config, *member, first, depth as nat));
}

/// Appends what stands from a member's key text to its value.
fn push_key_closing(out: &mut Vec<u8>, config: &EncodeConfig, key: &[u8])
    requires
        valid_utf8(key@),
    ensures
        final(out)@ == old(out)@ + key_closing(*config, key@),
{
    push_escaped_text(out, key, config.render.options.ascii_output);
    out.push(QUOTE);
    push_all(out, config.render.options.indent.key_separator());
    assert(out@ =~= old(out)@ + key_closing(*config, key@));
}

impl JsonEncoder {
    /// What is staged and noted so far.
    closed spec fn written(self) -> Rendering {
        Rendering {
            bytes: self.bytes@,
            kept: self.bytes@,
            refused: None,
            tagged: self.dropped_tag,
            float: self.normalized_semantics,
        }
    }

    /// What is still to be written.
    closed spec fn pending(self, cursor: JsonEncodeCursor) -> Rendering {
        let frames = cursor.frames@;
        let config = self.config;
        let depth = frames.len();
        if self.finished {
            Rendering::of(seq![])
        } else {
            match self.phase {
                Phase::Value => {
                    let lead = if depth == 0 {
                        root_lead(*cursor.current, config)
                    } else {
                        Rendering::of(seq![])
                    };
                    lead.then_write(
                        render_value(cursor.current.value, depth, config.render).then_write(after_value(frames, config)),
                    )
                },
                Phase::Text { target: TextTarget::Key, cursor: at } => {
                    let member = frames.last().member();
                    Rendering::of(self.text_rest(utf8(member.key), at as int) + config.render.options.indent.separator()).then_write(
                        render_value(member.item.value, depth, config.render).then_write(after_value(frames, config)),
                    )
                },
                Phase::Text { target: TextTarget::Value, cursor: at } => {
                    let text = cursor.current.value.bare()->Text_0;
                    Rendering::of(self.text_rest(utf8(text), at as int)).then_write(after_value(frames, config))
                },
                Phase::Number { piece, offset } => {
                    let number = cursor.current.value.bare()->Number_0;
                    Rendering::of(number_rest(number, piece as int, offset as int)).then_write(
                        after_value(frames, config),
                    )
                },
                Phase::FinishValue => after_value(frames, config),
            }
        }
    }

    /// The rest of a text from byte `at`, and its closing quote.
    spec fn text_rest(self, text: Seq<u8>, at: int) -> Seq<u8> {
        text_body(text.skip(at), self.config.render.options.ascii_output) + seq![QUOTE]
    }

    /// Whether byte `at` is a place to go on writing a text from.
    spec fn text_place(text: Seq<u8>, at: int) -> bool {
        0 <= at <= text.len() && valid_utf8(text.skip(at))
    }

    /// The open containers keep the nesting limit, can be indented, and stand at their children.
    spec fn frames_well_formed(self, frames: Seq<Frame>) -> bool {
        &&& indentable(self.config.render.options.indent, frames.len())
        &&& frames.len() <= self.config.render.max_nesting_depth
        &&& forall|k: int| 0 <= k < frames.len() ==> (#[trigger] frames[k]).well_formed(self.config)
    }

    /// The encoder and the traversal agree on where the item's writing stands.
    pub closed spec fn well_formed(self, cursor: JsonEncodeCursor) -> bool {
        let frames = cursor.frames@;
        &&& self.frames_well_formed(frames)
        &&& self.finished ==> frames.len() == 0
        &&& match self.phase {
            Phase::Text { target: TextTarget::Key, cursor: at } => {
                &&& frames.len() > 0
                &&& frames.last().container is Object
                &&& Self::text_place(utf8(frames.last().member().key), at as int)
            },
            Phase::Text { target: TextTarget::Value, cursor: at } => {
                &&& cursor.current.value.bare() is Text
                &&& Self::text_place(utf8(cursor.current.value.bare()->Text_0), at as int)
            },
            Phase::Number { piece, offset } => {
                &&& cursor.current.value.bare() is Number
                &&& number_place(cursor.current.value.bare()->Number_0, piece as int, offset as int)
            },
            _ => true,
        }
    }

    /// How close to its end the writing stands among states that stage no byte.
    spec fn rank(self) -> int {
        if self.finished {
            0
        } else {
            match self.phase {
                Phase::FinishValue => 1,
                Phase::Text { .. } | Phase::Number { .. } => 2,
                Phase::Value => 3,
            }
        }
    }

    /// Everything this item's writing comes to: what is staged, and what is still to be written.
    pub closed spec fn total(self, cursor: JsonEncodeCursor) -> Rendering {
        self.written().then_write(self.pending(cursor))
    }

    /// One step of writing: the total stays, and the writing moves towards its end.
    spec fn stepped(before: JsonEncoder, after: JsonEncoder, total: Rendering, cursor: JsonEncodeCursor) -> bool {
        &&& after.config == before.config
        &&& after.facts == before.facts
        &&& after.well_formed(cursor)
        &&& after.total(cursor) == total
        &&& after.bytes@.len() > before.bytes@.len() || (after.bytes@.len() == before.bytes@.len() && after.rank()
            < before.rank())
    }

    /// Starts an object member: the delimiter, its break and comments, and the key — whole when it is short, or only its
    /// opening quote when the rest takes steps of its own.
    #[verifier::spinoff_prover]
    fn start_object_key<'a>(&mut self, cursor: &mut JsonEncodeCursor<'a>, first: bool)
        requires
            !old(self).finished,
            old(self).frames_well_formed(old(cursor).frames@),
            old(cursor).frames@.len() > 0,
            old(cursor).frames@.last().container is Object,
            first == (old(cursor).frames@.last().index == 0),
        ensures
            final(self).config == old(self).config,
            final(self).facts == old(self).facts,
            final(self).well_formed(*final(cursor)),
            final(self).bytes@.len() > old(self).bytes@.len(),
            ({
                let frames = old(cursor).frames@;
                final(self).total(*final(cursor)) == old(self).written().then_write(
                    frames.last().children(frames.last().index as int, frames.len(), old(self).config).then_write(
                        after_children(frames, old(self).config),
                    ),
                )
            }),
    {
        let ghost frames = cursor.frames@;
        let ghost config = self.config;
        let ghost before = self.written();
        let ghost top = frames.last();
        let depth = cursor.frames.len();
        let member = match cursor.top_member(&self.config) {
            Some(member) => member,
            None => return,
        };
        let ghost opening = Rendering::of(key_opening(config, *member, first, depth as nat));
        let ghost closing = Rendering::of(key_closing(config, utf8(member.key)));
        let ghost value = render_value(member.item.value, depth as nat, config.render);
        proof {
            let more = top.children(top.index + 1, depth as nat, config);
            lemma_member_lead(config, *member, first, depth as nat);
            assert(top.children(top.index as int, depth as nat, config) == opening.then_write(closing).then_write(
                value,
            ).then_write(more));
            lemma_regroup_member(before, opening, closing, value, more, after_children(frames, config));
        }
        push_key_opening(&mut self.bytes, &self.config, member, first, depth);
        let key = bytes_of(&member.key);
        let ghost opened = self.written();
        assert(opened =~= before.then_write(opening));
        if key.len() <= TEXT_QUANTUM {
            push_key_closing(&mut self.bytes, &self.config, key);
            cursor.current = &member.item;
            self.phase = Phase::Value;
            proof {
                let rest = value.then_write(after_value(frames, config));
                assert(self.written() =~= opened.then_write(closing));
                assert(self.pending(*cursor) =~= rest);
                lemma_then_write_is_associative(opened, closing, rest);
            }
        } else {
            self.phase = Phase::Text { target: TextTarget::Key, cursor: 0 };
            proof {
                assert(key@.skip(0) =~= key@);
                assert(self.text_rest(key@, 0) + config.render.options.indent.separator() =~= key_closing(config, key@));
            }
        }
    }
}

/// A character boundary is never more than three bytes back.
proof fn lemma_boundary_is_near(text: Seq<u8>, at: int) -> (boundary: int)
    requires
        valid_utf8(text),
        0 <= at <= text.len(),
    ensures
        at - 3 <= boundary <= at,
        0 <= boundary,
        is_char_boundary(text, boundary),
    decreases text.len(),
{
    if at == 0 {
        0
    } else {
        let width = length_of_first_scalar(text);
        if at < width {
            0
        } else {
            let inner = lemma_boundary_is_near(pop_first_scalar(text), at - width);
            inner + width
        }
    }
}

/// Where a segment of at most a quantum that starts at `from` ends: on a character boundary.
fn segment_end(text: &[u8], from: usize) -> (end: usize)
    requires
        from <= text.len(),
        valid_utf8(text@.skip(from as int)),
    ensures
        from <= end <= text.len(),
        from < text.len() ==> from < end,
        valid_utf8(text@.subrange(from as int, end as int)),
        valid_utf8(text@.skip(end as int)),
{
    let ghost rest = text@.skip(from as int);
    let mut end: usize = if text.len() - from <= TEXT_QUANTUM {
        text.len()
    } else {
        from + TEXT_QUANTUM
    };
    let ghost boundary = lemma_boundary_is_near(rest, end - from);
    proof {
        is_char_boundary_start_end_of_seq(rest);
        if boundary < rest.len() {
            is_char_boundary_iff_not_is_continuation_byte(rest, boundary);
        }
    }
    while end < text.len() && 0x80 <= text[end] && text[end] <= 0xbf
        invariant
            from <= end <= text.len(),
            rest == text@.skip(from as int),
            boundary <= end - from,
            0 <= boundary,
            boundary < rest.len() ==> !(0x80 <= rest[boundary] <= 0xbf),
            boundary > 0 || end == text.len(),
        decreases end,
    {
        assert(rest[end - from] == text@[end as int]);
        end -= 1;
    }
    proof {
        if end < text.len() {
            assert(rest[end - from] == text@[end as int]);
            is_char_boundary_iff_not_is_continuation_byte(rest, end - from);
        }
        valid_utf8_split(rest, end - from);
        assert(rest.subrange(0, end - from) =~= text@.subrange(from as int, end as int));
        assert(rest.subrange(end - from, rest.len() as int) =~= text@.skip(end as int));
    }
    end
}

/// Appends a segment of a text from `from` on, escaped, and returns where the next one starts.
fn push_segment(out: &mut Vec<u8>, text: &[u8], from: usize, ascii: bool) -> (next: usize)
    requires
        from <= text.len(),
        valid_utf8(text@.skip(from as int)),
    ensures
        from <= next <= text.len(),
        from < text.len() ==> from < next,
        valid_utf8(text@.skip(next as int)),
        final(out)@ + text_body(text@.skip(next as int), ascii) == old(out)@ + text_body(text@.skip(from as int), ascii),
        final(out)@.len() >= old(out)@.len() + (next - from),
{
    let next = segment_end(text, from);
    let segment = vstd::slice::slice_subrange(text, from, next);
    push_escaped_text(out, segment, ascii);
    proof {
        let rest = text@.skip(next as int);
        assert(text@.skip(from as int) =~= segment@ + rest);
        lemma_text_body_concat(segment@, rest, ascii);
        assert(out@ + text_body(rest, ascii) =~= old(out)@ + text_body(text@.skip(from as int), ascii));
        lemma_text_body_is_no_shorter(segment@, ascii);
    }
    next
}

/// Escaping never shortens a text.
proof fn lemma_text_body_is_no_shorter(text: Seq<u8>, ascii: bool)
    requires
        valid_utf8(text),
    ensures
        text_body(text, ascii).len() >= text.len(),
    decreases text.len(),
{
    if !ascii {
        crate::json_escape::lemma_escaped_is_no_shorter(text);
    } else if text.len() > 0 {
        lemma_text_body_is_no_shorter(pop_first_scalar(text), ascii);
        if text[0] < 0x80 {
            assert(text.skip(1) =~= pop_first_scalar(text));
        }
    }
}

/// Moving bytes of a text from what is pending to what is written changes nothing of the whole.
proof fn lemma_text_moves(
    before: Rendering,
    after: Rendering,
    pending: Seq<u8>,
    left: Seq<u8>,
    tail: Seq<u8>,
    rest: Rendering,
)
    requires
        after.bytes + left == before.bytes + pending,
        after.kept == after.bytes,
        before.kept == before.bytes,
        after.refused is None,
        before.refused is None,
        after.tagged == before.tagged,
        after.float == before.float,
    ensures
        after.then_write(Rendering::of(left + tail).then_write(rest)) == before.then_write(
            Rendering::of(pending + tail).then_write(rest),
        ),
{
    let one = after.then_write(Rendering::of(left + tail).then_write(rest));
    let two = before.then_write(Rendering::of(pending + tail).then_write(rest));
    assert(one.bytes =~= (after.bytes + left) + (tail + rest.bytes));
    assert(two.bytes =~= (before.bytes + pending) + (tail + rest.bytes));
    assert(one.kept =~= (after.kept + left) + (tail + rest.kept));
    assert(two.kept =~= (before.kept + pending) + (tail + rest.kept));
    assert(one =~= two);
}

impl JsonEncoder {
    /// Moves to element `next` of the array whose frame was taken off the traversal.
    fn next_element<'a>(
        &mut self,
        cursor: &mut JsonEncodeCursor<'a>,
        frame: Frame<'a>,
        items: &'a Vec<Item>,
        next: usize,
    )
        requires
            !old(self).finished,
            old(self).frames_well_formed(old(cursor).frames@.push(frame)),
            frame.container == Container::Array(items),
            next == frame.index + 1,
            next < items@.len(),
        ensures
            final(self).config == old(self).config,
            final(self).facts == old(self).facts,
            final(self).well_formed(*final(cursor)),
            final(self).bytes@.len() > old(self).bytes@.len(),
            final(self).total(*final(cursor)) == old(self).written().then_write(
                after_value(old(cursor).frames@.push(frame), old(self).config),
            ),
    {
        let ghost lower = cursor.frames@;
        let ghost frames = lower.push(frame);
        let ghost config = self.config;
        let ghost before = self.written();
        let depth = cursor.frames.len() + 1;
        let item = &items[next];
        let ghost lead = config.render.element_lead(*item, next as int, depth as nat);
        let ghost value = render_value(item.value, depth as nat, config.render);
        let ghost more = render_elements(*items, next + 1, depth as nat, config.render);
        let ghost close = after_children(frames, config);
        proof {
            assert(frames.last() == frame);
            assert(render_elements(*items, next as int, depth as nat, config.render) == lead.then_write(value).then_write(
                more,
            ));
            assert(after_value(frames, config) == lead.then_write(value).then_write(more).then_write(close));
            lemma_regroup_element(before, lead, value, more, close);
        }
        self.bytes.push(COMMA);
        push_break(&mut self.bytes, self.config.render.options.indent, depth);
        push_lead(&mut self.bytes, &self.config, &item.comments, depth);
        assert(self.written() =~= before.then_write(lead));
        let moved = Frame { container: frame.container, index: next, order: frame.order };
        cursor.frames.push(moved);
        cursor.current = item;
        self.phase = Phase::Value;
        proof {
            let now = cursor.frames@;
            assert(now.drop_last() =~= frames.drop_last());
            assert(now.last() == moved);
            assert(after_children(now, config) == close);
            assert(after_value(now, config) == more.then_write(close));
            assert(self.pending(*cursor) =~= value.then_write(more.then_write(close)));
            assert forall|k: int| 0 <= k < now.len() implies (#[trigger] now[k]).well_formed(config) by {
                assert(frames[k].well_formed(config));
                if k < lower.len() {
                    assert(now[k] == frames[k]);
                }
            }
        }
    }

    /// Moves to member position `next` of the object whose frame was taken off the traversal.
    fn next_member<'a>(&mut self, cursor: &mut JsonEncodeCursor<'a>, frame: Frame<'a>, next: usize)
        requires
            !old(self).finished,
            old(self).frames_well_formed(old(cursor).frames@.push(frame)),
            frame.container is Object,
            next == frame.index + 1,
            next < frame.len(),
        ensures
            final(self).config == old(self).config,
            final(self).facts == old(self).facts,
            final(self).well_formed(*final(cursor)),
            final(self).bytes@.len() > old(self).bytes@.len(),
            final(self).total(*final(cursor)) == old(self).written().then_write(
                after_value(old(cursor).frames@.push(frame), old(self).config),
            ),
    {
        let ghost lower = cursor.frames@;
        let ghost frames = lower.push(frame);
        let ghost config = self.config;
        let moved = Frame { container: frame.container, index: next, order: frame.order };
        cursor.frames.push(moved);
        proof {
            let now = cursor.frames@;
            assert(frames.last() == frame);
            assert(now.last() == moved);
            assert(now.drop_last() =~= frames.drop_last());
            assert(moved.members_order() =~= frame.members_order());
            assert(after_children(now, config) == after_children(frames, config));
            assert(frames[lower.len() as int].well_formed(config));
            assert forall|k: int| 0 <= k < now.len() implies (#[trigger] now[k]).well_formed(config) by {
                assert(frames[k].well_formed(config));
                if k < lower.len() {
                    assert(now[k] == frames[k]);
                }
            }
        }
        self.start_object_key(cursor, false);
    }

    /// Closes the container whose frame was taken off the traversal.
    fn close_container<'a>(&mut self, cursor: &JsonEncodeCursor<'a>, frame: &Frame<'a>)
        requires
            !old(self).finished,
            old(self).phase == Phase::FinishValue,
            old(self).frames_well_formed(cursor.frames@.push(*frame)),
            frame.index + 1 >= frame.len(),
        ensures
            Self::stepped(
                *old(self),
                *final(self),
                old(self).written().then_write(after_value(cursor.frames@.push(*frame), old(self).config)),
                *cursor,
            ),
    {
        let ghost lower = cursor.frames@;
        let ghost frames = lower.push(*frame);
        let ghost config = self.config;
        let ghost before = self.written();
        let depth = cursor.frames.len();
        proof {
            lemma_indentable_above(config.render.options.indent, frames.len(), depth as nat);
        }
        if self.config.render.trailing_commas {
            self.bytes.push(COMMA);
        }
        push_break(&mut self.bytes, self.config.render.options.indent, depth);
        match frame.container {
            Container::Array(_) => self.bytes.push(CLOSE_BRACKET),
            Container::Object(_) => self.bytes.push(CLOSE_BRACE),
        }
        proof {
            let close = config.render.close(depth as nat, frame.closer());
            assert(frames.last() == *frame);
            assert(frames.drop_last() =~= lower);
            assert(self.written() =~= before.then_write(close));
            assert(frames[depth as int].well_formed(config));
            assert(frame.children(frame.index + 1, frames.len(), config) == Rendering::of(seq![]));
            assert(after_value(frames, config) =~= close.then_write(after_value(lower, config)));
            lemma_then_write_is_associative(before, close, after_value(lower, config));
            assert forall|k: int| 0 <= k < lower.len() implies (#[trigger] lower[k]).well_formed(config) by {
                assert(frames[k].well_formed(config));
                assert(lower[k] == frames[k]);
            }
        }
    }

    /// Finishes the current value: moves to the next child of the top container, closes it after its last child, or ends
    /// the item. The framing joins the SAME staging buffer, so payload and terminator publish together.
    #[verifier::spinoff_prover]
    #[verifier::rlimit(40)]
    fn finish_value<'a>(&mut self, cursor: &mut JsonEncodeCursor<'a>)
        requires
            !old(self).finished,
            old(self).phase == Phase::FinishValue,
            old(self).well_formed(*old(cursor)),
        ensures
            Self::stepped(*old(self), *final(self), old(self).total(*old(cursor)), *final(cursor)),
    {
        let ghost frames = cursor.frames@;
        let ghost config = self.config;
        let ghost before = self.written();
        match cursor.frames.pop() {
            Some(frame) => {
                assert(cursor.frames@.push(frame) =~= frames);
                assert(frames.last().well_formed(config));
                let next = frame.index + 1;
                match frame.container {
                    Container::Array(items) => {
                        if next < items.len() {
                            self.next_element(cursor, frame, items, next);
                        } else {
                            self.close_container(cursor, &frame);
                        }
                    }
                    Container::Object(members) => {
                        if next < members.len() {
                            self.next_member(cursor, frame, next);
                        } else {
                            self.close_container(cursor, &frame);
                        }
                    }
                }
            }
            None => {
                push_all(&mut self.bytes, self.config.framing.as_slice());
                self.finished = true;
                proof {
                    assert(self.written() =~= before.then_write(Rendering::of(config.framing@)));
                    assert(self.total(*cursor) =~= self.written());
                }
            }
        }
    }

    /// Writes more of the key the top frame stands at.
    #[verifier::spinoff_prover]
    #[verifier::rlimit(40)]
    fn write_key_text<'a>(&mut self, cursor: &mut JsonEncodeCursor<'a>, at: usize)
        requires
            !old(self).finished,
            old(self).phase == (Phase::Text { target: TextTarget::Key, cursor: at }),
            old(self).well_formed(*old(cursor)),
        ensures
            Self::stepped(*old(self), *final(self), old(self).total(*old(cursor)), *final(cursor)),
    {
        let ghost frames = cursor.frames@;
        let ghost config = self.config;
        let ghost before = self.written();
        let ghost ascii = config.render.options.ascii_output;
        let depth = cursor.frames.len();
        let member = match cursor.top_member(&self.config) {
            Some(member) => member,
            None => return,
        };
        let key = bytes_of(&member.key);
        let ghost tail = seq![QUOTE] + config.render.options.indent.separator();
        let ghost rest = render_value(member.item.value, depth as nat, config.render).then_write(after_value(frames, config));
        let next = push_segment(&mut self.bytes, key, at, self.config.render.options.ascii_output);
        proof {
            let pending = text_body(key@.skip(at as int), ascii);
            let left = text_body(key@.skip(next as int), ascii);
            lemma_text_moves(before, self.written(), pending, left, tail, rest);
            assert(pending + tail =~= pending + seq![QUOTE] + config.render.options.indent.separator());
            assert(left + tail =~= left + seq![QUOTE] + config.render.options.indent.separator());
        }
        if next == key.len() {
            let ghost segment = self.written();
            self.bytes.push(QUOTE);
            push_all(&mut self.bytes, self.config.render.options.indent.key_separator());
            cursor.current = &member.item;
            self.phase = Phase::Value;
            proof {
                assert(key@.skip(next as int) =~= seq![]);
                assert(text_body(seq![], ascii) =~= seq![]);
                let left = text_body(key@.skip(next as int), ascii);
                assert(self.written() =~= segment.then_write(Rendering::of(left + tail)));
                assert(self.pending(*cursor) =~= rest);
                lemma_then_write_is_associative(segment, Rendering::of(left + tail), rest);
            }
        } else {
            self.phase = Phase::Text { target: TextTarget::Key, cursor: next };
        }
    }

    /// Writes more of the current text.
    fn write_value_text<'a>(&mut self, cursor: &JsonEncodeCursor<'a>, at: usize)
        requires
            !old(self).finished,
            old(self).phase == (Phase::Text { target: TextTarget::Value, cursor: at }),
            old(self).well_formed(*cursor),
        ensures
            Self::stepped(*old(self), *final(self), old(self).total(*cursor), *cursor),
    {
        let ghost config = self.config;
        let ghost before = self.written();
        let ghost ascii = config.render.options.ascii_output;
        let (bare, _) = cursor.current.value.untagged();
        let text = match bare {
            Value::Text(text) => bytes_of(text),
            _ => {
                assert(false);
                return;
            }
        };
        let ghost rest = after_value(cursor.frames@, config);
        let next = push_segment(&mut self.bytes, text, at, self.config.render.options.ascii_output);
        proof {
            let pending = text_body(text@.skip(at as int), ascii);
            let left = text_body(text@.skip(next as int), ascii);
            lemma_text_moves(before, self.written(), pending, left, seq![QUOTE], rest);
        }
        if next == text.len() {
            let ghost segment = self.written();
            self.bytes.push(QUOTE);
            self.phase = Phase::FinishValue;
            proof {
                assert(text@.skip(next as int) =~= seq![]);
                assert(text_body(seq![], ascii) =~= seq![]);
                let left = text_body(text@.skip(next as int), ascii);
                assert(self.written() =~= segment.then_write(Rendering::of(left + seq![QUOTE])));
                lemma_then_write_is_associative(segment, Rendering::of(left + seq![QUOTE]), rest);
            }
        } else {
            self.phase = Phase::Text { target: TextTarget::Value, cursor: next };
        }
    }

    /// Writes more of the current number.
    fn write_number<'a>(&mut self, cursor: &JsonEncodeCursor<'a>, piece: usize, offset: usize)
        requires
            !old(self).finished,
            old(self).phase == (Phase::Number { piece, offset }),
            old(self).well_formed(*cursor),
        ensures
            Self::stepped(*old(self), *final(self), old(self).total(*cursor), *cursor),
    {
        let ghost config = self.config;
        let ghost before = self.written();
        let (bare, _) = cursor.current.value.untagged();
        let number = match bare {
            Value::Number(number) => number,
            _ => {
                assert(false);
                return;
            }
        };
        let ghost pending = number_rest(*number, piece as int, offset as int);
        let ghost rest = after_value(cursor.frames@, config);
        match push_number(&mut self.bytes, number, piece, offset) {
            Some((piece2, offset2)) => {
                self.phase = Phase::Number { piece: piece2, offset: offset2 };
                proof {
                    let left = number_rest(*number, piece2 as int, offset2 as int);
                    lemma_text_moves(before, self.written(), pending, left, seq![], rest);
                    assert(left + seq![] =~= left);
                    assert(pending + seq![] =~= pending);
                }
            }
            None => {
                self.phase = Phase::FinishValue;
                proof {
                    assert(self.written() =~= before.then_write(Rendering::of(pending)));
                    lemma_then_write_is_associative(before, Rendering::of(pending), rest);
                }
            }
        }
    }
}

/// Regrouping an element in front of what follows it.
proof fn lemma_regroup_element(
    before: Rendering,
    lead: Rendering,
    value: Rendering,
    more: Rendering,
    close: Rendering,
)
    ensures
        before.then_write(lead.then_write(value).then_write(more).then_write(close)) == before.then_write(
            lead,
        ).then_write(value.then_write(more.then_write(close))),
{
    assert(before.then_write(lead.then_write(value).then_write(more).then_write(close)) =~= before.then_write(
        lead,
    ).then_write(value.then_write(more.then_write(close))));
}

/// Regrouping a container's opening in front of its children.
proof fn lemma_regroup_opening(
    before: Rendering,
    gate: Rendering,
    opening: Rendering,
    children: Rendering,
    close: Rendering,
    rest: Rendering,
)
    requires
        gate == Rendering::gate(None),
    ensures
        before.then_write(
            gate.then_write(opening).then_write(children).then_write(close).then_write(rest),
        ) == before.then_write(opening).then_write(children.then_write(close.then_write(rest))),
{
    assert(before.then_write(
        gate.then_write(opening).then_write(children).then_write(close).then_write(rest),
    ) =~= before.then_write(opening).then_write(children.then_write(close.then_write(rest))));
}

impl JsonEncoder {
    /// What starting the bare value of the current item must keep of the whole, given what was written before it.
    spec fn started<'a>(
        before: JsonEncoder,
        after: JsonEncoder,
        value: Value,
        lower: Seq<Frame<'a>>,
        cursor: JsonEncodeCursor<'a>,
    ) -> bool {
        Self::stepped(
            before,
            after,
            before.written().then_write(
                render_value(value, lower.len(), before.config.render).then_write(after_value(lower, before.config)),
            ),
            cursor,
        )
    }

    /// Starting a value that renders as `own` is refused, and stages nothing of it.
    spec fn refused(before: JsonEncoder, after: JsonEncoder, own: Rendering, kind: CodecFailureKind) -> bool {
        &&& own.refused == Some(kind)
        &&& own.kept.len() == 0
        &&& after.bytes@ == before.bytes@
    }

    /// Starts a text value: verbatim at the root under raw strings, whole when it is short, or only its opening quote
    /// when the rest takes steps of its own.
    fn start_text<'a>(&mut self, cursor: &JsonEncodeCursor<'a>, text: &'a String) -> (started: Result<
        (),
        CodecFailureKind,
    >)
        requires
            !old(self).finished,
            old(self).phase == Phase::Value,
            old(self).frames_well_formed(cursor.frames@),
            cursor.current.value.bare() == Value::Text(*text),
        ensures
            final(self).config == old(self).config,
            match started {
                Ok(_) => Self::started(*old(self), *final(self), Value::Text(*text), cursor.frames@, *cursor),
                Err(kind) => Self::refused(
                    *old(self),
                    *final(self),
                    render_value(Value::Text(*text), cursor.frames@.len(), old(self).config.render),
                    kind,
                ),
            },
            started is Ok && cursor.frames@.len() == 0 && old(self).config.render.prints_raw() ==> final(self).bytes@ == old(
                self,
            ).bytes@ + utf8(*text),
    {
        let ghost config = self.config;
        let ghost before = self.written();
        let ghost rest = after_value(cursor.frames@, config);
        let bytes = bytes_of(text);
        let ascii = self.config.render.options.ascii_output;
        if self.root_prints_raw(cursor) {
            // A NUL inside the string would be indistinguishable from the NUL that ends every item, so it is rejected
            // rather than written.
            if self.config.render.options.raw_output_nul && holds_nul(bytes) {
                return Err(CodecFailureKind::RawNulByte);
            }
            push_all(&mut self.bytes, bytes);
            self.phase = Phase::FinishValue;
            proof {
                let raw = config.render.raw_text(*text);
                assert(raw =~= Rendering::of(bytes@));
                assert(self.written() =~= before.then_write(raw));
                lemma_then_write_is_associative(before, raw, rest);
            }
            return Ok(());
        }
        self.bytes.push(QUOTE);
        let ghost opened = self.written();
        let ghost body = Rendering::of(text_body(bytes@, ascii) + seq![QUOTE]);
        proof {
            assert(opened.then_write(body) =~= before.then_write(Rendering::of(quoted(bytes@, ascii))));
            lemma_then_write_is_associative(opened, body, rest);
            lemma_then_write_is_associative(before, Rendering::of(quoted(bytes@, ascii)), rest);
        }
        if bytes.len() <= TEXT_QUANTUM {
            push_escaped_text(&mut self.bytes, bytes, ascii);
            self.bytes.push(QUOTE);
            self.phase = Phase::FinishValue;
            assert(self.written() =~= opened.then_write(body));
        } else {
            self.phase = Phase::Text { target: TextTarget::Value, cursor: 0 };
            proof {
                assert(bytes@.skip(0) =~= bytes@);
                assert(self.text_rest(bytes@, 0) =~= text_body(bytes@, ascii) + seq![QUOTE]);
            }
        }
        Ok(())
    }

    /// Whether a value prints verbatim where the traversal stands: only the root does.
    fn root_prints_raw<'a>(&self, cursor: &JsonEncodeCursor<'a>) -> (raw: bool)
        ensures
            raw == (cursor.frames@.len() == 0 && self.config.render.prints_raw()),
    {
        self.config.render.options.raw_strings && !self.config.render.options.ascii_output && cursor.frames.len() == 0
    }

    /// Starts a projected text: between bare quotes, or verbatim at the root under raw strings.
    fn start_projected<'a>(&mut self, cursor: &JsonEncodeCursor<'a>, text: &'a String)
        requires
            !old(self).finished,
            old(self).phase == Phase::Value,
            old(self).frames_well_formed(cursor.frames@),
        ensures
            Self::started(*old(self), *final(self), Value::Projected(*text), cursor.frames@, *cursor),
    {
        let ghost config = self.config;
        let ghost before = self.written();
        let bytes = bytes_of(text);
        let raw = self.root_prints_raw(cursor);
        if !raw {
            self.bytes.push(QUOTE);
        }
        push_all(&mut self.bytes, bytes);
        if !raw {
            self.bytes.push(QUOTE);
        }
        self.phase = Phase::FinishValue;
        proof {
            let own = render_value(Value::Projected(*text), cursor.frames@.len(), config.render);
            assert(self.written() =~= before.then_write(own));
            lemma_then_write_is_associative(before, own, after_value(cursor.frames@, config));
        }
    }

    /// Starts a number.
    fn start_number<'a>(&mut self, cursor: &JsonEncodeCursor<'a>, number: &'a NumberText)
        requires
            !old(self).finished,
            old(self).phase == Phase::Value,
            old(self).frames_well_formed(cursor.frames@),
            cursor.current.value.bare() == Value::Number(*number),
        ensures
            Self::started(*old(self), *final(self), Value::Number(*number), cursor.frames@, *cursor),
    {
        let ghost config = self.config;
        let ghost before = self.written();
        let ghost own = render_value(Value::Number(*number), cursor.frames@.len(), config.render);
        let ghost rest = after_value(cursor.frames@, config);
        if let NumberText::Float(_) = number {
            self.normalized_semantics = true;
        }
        let ghost noted = self.written();
        proof {
            lemma_number_starts(*number);
            assert(noted.then_write(Rendering::of(number_bytes(*number))) =~= before.then_write(own));
            lemma_then_write_is_associative(noted, Rendering::of(number_bytes(*number)), rest);
            lemma_then_write_is_associative(before, own, rest);
        }
        match push_number(&mut self.bytes, number, 0, 0) {
            Some((piece, offset)) => {
                self.phase = Phase::Number { piece, offset };
                proof {
                    let left = number_rest(*number, piece as int, offset as int);
                    lemma_text_moves(noted, self.written(), number_bytes(*number), left, seq![], rest);
                    assert(left + seq![] =~= left);
                    assert(number_bytes(*number) + seq![] =~= number_bytes(*number));
                }
            }
            None => {
                self.phase = Phase::FinishValue;
                assert(self.written() =~= noted.then_write(Rendering::of(number_bytes(*number))));
            }
        }
    }

    /// Starts an array.
    #[verifier::spinoff_prover]
    #[verifier::rlimit(30)]
    fn start_array<'a>(&mut self, cursor: &mut JsonEncodeCursor<'a>, items: &'a Vec<Item>) -> (started: Result<
        (),
        CodecFailureKind,
    >)
        requires
            !old(self).finished,
            old(self).phase == Phase::Value,
            old(self).frames_well_formed(old(cursor).frames@),
        ensures
            final(self).config == old(self).config,
            match started {
                Ok(_) => Self::started(
                    *old(self),
                    *final(self),
                    Value::Array(*items),
                    old(cursor).frames@,
                    *final(cursor),
                ),
                Err(kind) => Self::refused(
                    *old(self),
                    *final(self),
                    render_value(Value::Array(*items), old(cursor).frames@.len(), old(self).config.render),
                    kind,
                ),
            },
    {
        let ghost config = self.config;
        let ghost before = self.written();
        let ghost lower = cursor.frames@;
        let ghost rest = after_value(lower, config);
        let depth = cursor.frames.len();
        if depth >= self.config.render.max_nesting_depth {
            return Err(CodecFailureKind::NestingLimit);
        }
        if items.len() > 0 && !can_indent(self.config.render.options.indent, depth + 1) {
            return Err(CodecFailureKind::Overflow);
        }
        if items.len() == 0 {
            self.bytes.push(OPEN_BRACKET);
            self.bytes.push(CLOSE_BRACKET);
            self.phase = Phase::FinishValue;
            proof {
                let own = render_value(Value::Array(*items), depth as nat, config.render);
                assert(self.written() =~= before.then_write(own));
                lemma_then_write_is_associative(before, own, rest);
            }
            return Ok(());
        }
        let item = &items[0];
        let inner = depth + 1;
        let frame = Frame { container: Container::Array(items), index: 0, order: None };
        let ghost lead = config.render.element_lead(*item, 0, inner as nat);
        let ghost value = render_value(item.value, inner as nat, config.render);
        let ghost more = render_elements(*items, 1, inner as nat, config.render);
        let ghost close = config.render.close(depth as nat, CLOSE_BRACKET);
        let ghost opening = Rendering::of(seq![OPEN_BRACKET]);
        proof {
            lemma_regroup_opening(
                before,
                config.render.nest(depth as nat, true),
                opening,
                lead.then_write(value).then_write(more),
                close,
                rest,
            );
            assert(render_elements(*items, 0, inner as nat, config.render) == lead.then_write(value).then_write(more));
        }
        self.bytes.push(OPEN_BRACKET);
        let ghost opened = self.written();
        assert(opened =~= before.then_write(opening));
        push_break(&mut self.bytes, self.config.render.options.indent, inner);
        push_lead(&mut self.bytes, &self.config, &item.comments, inner);
        assert(self.written() =~= opened.then_write(lead));
        cursor.frames.push(frame);
        cursor.current = item;
        proof {
            let frames = cursor.frames@;
            assert(frames.last() == frame);
            assert(frames.drop_last() =~= lower);
            let after = close.then_write(rest);
            assert(after_children(frames, config) == after);
            assert(after_value(frames, config) == more.then_write(after));
            assert(self.pending(*cursor) =~= value.then_write(more.then_write(after)));
            lemma_regroup_element(opened, lead, value, more, after);
            lemma_then_write_is_associative(lead.then_write(value).then_write(more), close, rest);
            assert forall|k: int| 0 <= k < frames.len() implies (#[trigger] frames[k]).well_formed(config) by {
                if k < lower.len() {
                    assert(frames[k] == lower[k]);
                }
            }
        }
        Ok(())
    }

    /// Starts an object.
    fn start_object<'a>(&mut self, cursor: &mut JsonEncodeCursor<'a>, members: &'a Vec<Member>) -> (started: Result<
        (),
        CodecFailureKind,
    >)
        requires
            !old(self).finished,
            old(self).phase == Phase::Value,
            old(self).frames_well_formed(old(cursor).frames@),
        ensures
            final(self).config == old(self).config,
            match started {
                Ok(_) => Self::started(
                    *old(self),
                    *final(self),
                    Value::Object(*members),
                    old(cursor).frames@,
                    *final(cursor),
                ),
                Err(kind) => Self::refused(
                    *old(self),
                    *final(self),
                    render_value(Value::Object(*members), old(cursor).frames@.len(), old(self).config.render),
                    kind,
                ),
            },
    {
        let ghost config = self.config;
        let ghost before = self.written();
        let ghost lower = cursor.frames@;
        let ghost rest = after_value(lower, config);
        let depth = cursor.frames.len();
        if depth >= self.config.render.max_nesting_depth {
            return Err(CodecFailureKind::NestingLimit);
        }
        if members.len() > 0 && !can_indent(self.config.render.options.indent, depth + 1) {
            return Err(CodecFailureKind::Overflow);
        }
        if members.len() == 0 {
            self.bytes.push(OPEN_BRACE);
            self.bytes.push(CLOSE_BRACE);
            self.phase = Phase::FinishValue;
            proof {
                let own = render_value(Value::Object(*members), depth as nat, config.render);
                assert(self.written() =~= before.then_write(own));
                lemma_then_write_is_associative(before, own, rest);
            }
            return Ok(());
        }
        // Sorting reads every key BEFORE the frame lands, so the frame carries a stable order and every later member
        // read maps through it.
        let order = if self.config.render.options.sort_keys {
            Some(build_object_order(members))
        } else {
            None
        };
        let frame = Frame { container: Container::Object(members), index: 0, order };
        cursor.frames.push(frame);
        proof {
            let frames = cursor.frames@;
            assert(frames.last() == frame);
            assert(frames.drop_last() =~= lower);
            assert(frame.members_order() =~= member_order(members@, config.render.options.sort_keys));
            assert forall|k: int| 0 <= k < frames.len() implies (#[trigger] frames[k]).well_formed(config) by {
                if k < lower.len() {
                    assert(frames[k] == lower[k]);
                }
            }
            let children = frame.children(0, frames.len(), config);
            let close = config.render.close(depth as nat, CLOSE_BRACE);
            let own = render_value(Value::Object(*members), depth as nat, config.render);
            assert(own == config.render.nest(depth as nat, true).then_write(children).then_write(close));
            assert(config.render.nest(depth as nat, true).then_write(children) =~= children);
            lemma_then_write_is_associative(children, close, rest);
            assert(after_children(frames, config) == close.then_write(rest));
        }
        self.start_object_key(cursor, true);
        Ok(())
    }
}

/// Whether `bytes` holds a NUL.
fn holds_nul(bytes: &[u8]) -> (holds: bool)
    ensures
        holds == bytes@.contains(0),
{
    let mut i: usize = 0;
    while i < bytes.len()
        invariant
            i <= bytes.len(),
            forall|k: int| 0 <= k < i ==> bytes@[k] != 0,
        decreases bytes.len() - i,
    {
        if bytes[i] == 0 {
            assert(bytes@[i as int] == 0);
            return true;
        }
        i += 1;
    }
    false
}

/// Regrouping a value's lead and tag in front of it.
proof fn lemma_regroup_value(before: Rendering, lead: Rendering, tag: Rendering, bare: Rendering, rest: Rendering)
    ensures
        before.then_write(lead.then_write(tag.then_write(bare).then_write(rest))) == before.then_write(
            lead,
        ).then_write(tag).then_write(bare.then_write(rest)),
        before.then_write(lead).then_write(tag).refused is None && bare.refused is Some ==> {
            let whole = before.then_write(lead.then_write(tag.then_write(bare).then_write(rest)));
            whole.refused == bare.refused && whole.kept == before.then_write(lead).then_write(tag).kept + bare.kept
        },
{
    assert(before.then_write(lead.then_write(tag.then_write(bare).then_write(rest))) =~= before.then_write(
        lead,
    ).then_write(tag).then_write(bare.then_write(rest)));
}

impl JsonEncoder {
    /// Appends what stands before a ROOT value: its comments, and the item prefix unless it is left out. Nothing for a
    /// nested value.
    fn push_root_lead<'a>(&mut self, cursor: &JsonEncodeCursor<'a>, bare: &Value)
        requires
            *bare == cursor.current.value.bare(),
        ensures
            final(self).config == old(self).config,
            final(self).facts == old(self).facts,
            final(self).phase == old(self).phase,
            final(self).finished == old(self).finished,
            final(self).bytes@.len() >= old(self).bytes@.len(),
            final(self).written() == old(self).written().then_write(
                if cursor.frames@.len() == 0 {
                    root_lead(*cursor.current, old(self).config)
                } else {
                    Rendering::of(seq![])
                },
            ),
    {
        let ghost before = self.written();
        if cursor.frames.len() > 0 {
            assert(before.then_write(Rendering::of(seq![])) =~= before);
            return;
        }
        push_lead(&mut self.bytes, &self.config, &cursor.current.comments, 0);
        let skip = match bare {
            Value::Text(_) => self.config.render.options.raw_strings,
            Value::Projected(_) => self.config.render.options.raw_strings && !self.config.render.options.ascii_output,
            _ => false,
        };
        if !skip {
            push_all(&mut self.bytes, self.config.prefix.as_slice());
        }
        assert(self.written() =~= before.then_write(root_lead(*cursor.current, self.config)));
    }

    /// Starts the current value.
    fn start_value<'a>(&mut self, cursor: &mut JsonEncodeCursor<'a>) -> (started: Result<(), CodecFailureKind>)
        requires
            !old(self).finished,
            old(self).phase == Phase::Value,
            old(self).well_formed(*old(cursor)),
        ensures
            final(self).config == old(self).config,
            match started {
                Ok(_) => Self::stepped(*old(self), *final(self), old(self).total(*old(cursor)), *final(cursor)),
                Err(kind) => {
                    &&& old(self).total(*old(cursor)).refused == Some(kind)
                    &&& final(self).staged() == old(self).total(*old(cursor)).kept
                },
            },
            // A root text that prints raw is staged whole, behind its lead, or not at all.
            started is Ok && old(cursor).frames@.len() == 0 && old(self).config.render.prints_raw() ==> (
            old(cursor).current.value.bare() matches Value::Text(text) ==> final(self).staged() == old(self).staged()
                + root_lead(*old(cursor).current, old(self).config).bytes + utf8(text)),
    {
        let ghost config = self.config;
        let ghost before = self.written();
        let ghost frames = cursor.frames@;
        let current: &'a Item = cursor.current;
        let (bare, tagged) = current.value.untagged();
        proof {
            let lead = if frames.len() == 0 {
                root_lead(*current, config)
            } else {
                Rendering::of(seq![])
            };
            lemma_tags_leave_no_bytes(current.value, frames.len(), config.render);
            lemma_regroup_value(
                before,
                lead,
                Rendering::tag(current.value is Tagged),
                render_value(*bare, frames.len(), config.render),
                after_value(frames, config),
            );
        }
        self.push_root_lead(cursor, bare);
        let ghost led = self.written();
        if tagged {
            self.dropped_tag = true;
        }
        assert(self.written() =~= led.then_write(Rendering::tag(current.value is Tagged)));
        let ghost noted = *self;
        match bare {
            Value::Null => {
                self.bytes.push(LOWER_N);
                self.bytes.push(LOWER_U);
                self.bytes.push(LOWER_L);
                self.bytes.push(LOWER_L);
                self.phase = Phase::FinishValue;
                proof {
                    let own = Rendering::of(null_text());
                    assert(self.written() =~= noted.written().then_write(own));
                    lemma_then_write_is_associative(noted.written(), own, after_value(frames, config));
                }
                Ok(())
            }
            Value::Bool(value) => {
                if *value {
                    push_all(&mut self.bytes, &[LOWER_T, LOWER_R, LOWER_U, LOWER_E]);
                } else {
                    push_all(&mut self.bytes, &[LOWER_F, LOWER_A, LOWER_L, LOWER_S, LOWER_E]);
                }
                self.phase = Phase::FinishValue;
                proof {
                    let own = Rendering::of(bool_text(*value));
                    assert(self.written() =~= noted.written().then_write(own));
                    lemma_then_write_is_associative(noted.written(), own, after_value(frames, config));
                }
                Ok(())
            }
            Value::Number(number) => {
                self.start_number(cursor, number);
                Ok(())
            }
            Value::Text(text) => self.start_text(cursor, text),
            Value::Projected(text) => {
                self.start_projected(cursor, text);
                Ok(())
            }
            Value::Array(items) => self.start_array(cursor, items),
            Value::Object(members) => self.start_object(cursor, members),
            Value::Tagged(_) => {
                proof {
                    lemma_bare_is_untagged(current.value);
                }
                Ok(())
            }
        }
    }

    /// Takes one step of writing.
    fn step<'a>(&mut self, cursor: &mut JsonEncodeCursor<'a>) -> (stepped: Result<(), CodecFailureKind>)
        requires
            !old(self).finished,
            old(self).well_formed(*old(cursor)),
        ensures
            final(self).config == old(self).config,
            match stepped {
                Ok(_) => Self::stepped(*old(self), *final(self), old(self).total(*old(cursor)), *final(cursor)),
                Err(kind) => {
                    &&& old(self).total(*old(cursor)).refused == Some(kind)
                    &&& final(self).staged() == old(self).total(*old(cursor)).kept
                },
            },
    {
        match self.phase {
            Phase::Value => self.start_value(cursor),
            Phase::Text { target, cursor: at } => {
                match target {
                    TextTarget::Key => self.write_key_text(cursor, at),
                    TextTarget::Value => self.write_value_text(cursor, at),
                }
                Ok(())
            }
            Phase::Number { piece, offset } => {
                self.write_number(cursor, piece, offset);
                Ok(())
            }
            Phase::FinishValue => {
                self.finish_value(cursor);
                Ok(())
            }
        }
    }
}

/// Nothing is left of a value's tags.
proof fn lemma_bare_is_untagged(value: Value)
    ensures
        !(value.bare() is Tagged),
    decreases value,
{
    if let Value::Tagged(inner) = value {
        lemma_bare_is_untagged(*inner);
    }
}

impl JsonEncoder {
    /// The encoder's configuration.
    pub closed spec fn settings(self) -> EncodeConfig {
        self.config
    }

    /// The bytes staged for the sink.
    pub closed spec fn staged(self) -> Seq<u8> {
        self.bytes@
    }

    /// Whether the whole item has been written.
    pub closed spec fn done(self) -> bool {
        self.finished
    }

    /// How the current item's facts survive.
    pub closed spec fn item_facts(self) -> FactPreservation {
        self.facts
    }

    /// The encoder stands before an item: nothing is staged or noted, whatever it wrote before.
    pub closed spec fn fresh(self) -> bool {
        &&& self.bytes@.len() == 0
        &&& self.phase == Phase::Value
        &&& !self.finished
        &&& !self.normalized_semantics
        &&& !self.dropped_tag
    }

    /// A fresh encoder at an item's root writes the item's rendering.
    pub proof fn lemma_fresh_writes_the_item(self, cursor: JsonEncodeCursor, item: Item)
        requires
            self.fresh(),
            cursor.at_root(item),
        ensures
            self.well_formed(cursor),
            self.total(cursor) == render_item(item, self.settings()),
    {
        let config = self.config;
        let lead = root_lead(item, config);
        let value = render_value(item.value, 0, config.render);
        let framing = Rendering::of(config.framing@);
        lemma_then_write_is_associative(lead, value, framing);
        assert(self.written() =~= Rendering::of(seq![]));
        assert(self.total(cursor) =~= lead.then_write(value).then_write(framing));
    }

    /// An encoder for items under `config`.
    pub fn new(config: EncodeConfig, facts: FactPreservation) -> (encoder: JsonEncoder)
        ensures
            encoder.fresh(),
            encoder.settings() == config,
            encoder.item_facts() == facts,
    {
        JsonEncoder {
            config,
            bytes: Vec::new(),
            phase: Phase::Value,
            finished: false,
            normalized_semantics: false,
            dropped_tag: false,
            facts,
        }
    }

    /// Reinitializes this encoder for one more ordered item. Every byte and phase of the previous item is dropped, so an
    /// item that stopped midway cannot leak staged bytes into the next one's output. Comments and trailing commas belong
    /// to the ITEM that armed them: both are off until armed again.
    pub fn reset(&mut self, facts: FactPreservation)
        ensures
            final(self).fresh(),
            final(self).item_facts() == facts,
            final(self).settings() == old(self).settings().with_extras(false, false),
    {
        self.bytes.clear();
        self.phase = Phase::Value;
        self.finished = false;
        self.normalized_semantics = false;
        self.dropped_tag = false;
        self.facts = facts;
        self.config.render.comments = false;
        self.config.render.trailing_commas = false;
    }

    /// Arms the commented dialects' two extras for the coming item.
    pub fn arm(&mut self, comments: bool, trailing_commas: bool)
        requires
            old(self).fresh(),
        ensures
            final(self).fresh(),
            final(self).item_facts() == old(self).item_facts(),
            final(self).settings() == old(self).settings().with_extras(comments, trailing_commas),
    {
        self.config.render.comments = comments;
        self.config.render.trailing_commas = trailing_commas;
    }

    /// Starts one more item on an encoder that an earlier item used, if it is the encoder that `config` asks for: one with
    /// another prefix, framing or style is left alone, for it would silently write another output. A restarted encoder
    /// keeps nothing of the earlier item, its nesting limit included.
    pub fn restart(&mut self, config: &EncodeConfig, facts: FactPreservation) -> (restarted: bool)
        ensures
            restarted == (old(self).settings().prefix@ == config.prefix@ && old(self).settings().framing@
                == config.framing@ && old(self).settings().render.options == config.render.options),
            restarted ==> {
                &&& final(self).fresh()
                &&& final(self).item_facts() == facts
                &&& final(self).settings() == old(self).settings().with_extras(false, false).with_limit(
                    config.render.max_nesting_depth,
                )
            },
            !restarted ==> *final(self) == *old(self),
    {
        if !same_bytes(self.config.prefix.as_slice(), config.prefix.as_slice()) || !same_bytes(
            self.config.framing.as_slice(),
            config.framing.as_slice(),
        ) || self.config.render.options != config.render.options {
            return false;
        }
        self.reset(facts);
        self.config.render.max_nesting_depth = config.render.max_nesting_depth;
        true
    }

    /// The commented dialects' restart: the style must be the encoder's own, and the item's comments and trailing commas
    /// are armed behind the reset, which would clear them. The nesting limit is the coming item's.
    pub fn restart_commented(
        &mut self,
        options: JsonEncodeOptions,
        trailing_commas: bool,
        max_nesting_depth: usize,
        facts: FactPreservation,
    ) -> (restarted: bool)
        ensures
            restarted == (old(self).settings().render.options == options),
            restarted ==> {
                &&& final(self).fresh()
                &&& final(self).item_facts() == facts
                &&& final(self).settings() == old(self).settings().with_extras(true, trailing_commas).with_limit(
                    max_nesting_depth,
                )
            },
            !restarted ==> *final(self) == *old(self),
    {
        if self.config.render.options != options {
            return false;
        }
        self.reset(facts);
        self.arm(true, trailing_commas);
        self.config.render.max_nesting_depth = max_nesting_depth;
        true
    }

    /// Takes up to `granted` steps, stopping early when the item is done or when there is enough staged to offer, and
    /// returns how many it took. Nothing of the item's whole writing changes, whatever the grant.
    pub fn run<'a>(&mut self, cursor: &mut JsonEncodeCursor<'a>, granted: usize) -> (used: Result<
        usize,
        CodecFailureKind,
    >)
        requires
            old(self).well_formed(*old(cursor)),
        ensures
            final(self).settings() == old(self).settings(),
            match used {
                Ok(used) => {
                    &&& used <= granted
                    &&& final(self).well_formed(*final(cursor))
                    &&& final(self).item_facts() == old(self).item_facts()
                    &&& final(self).total(*final(cursor)) == old(self).total(*old(cursor))
                    &&& used < granted ==> final(self).done() || final(self).staged().len() >= OFFER_BYTES
                    &&& final(self).done() ==> final(self).total(*final(cursor)).bytes == final(self).staged()
                    &&& final(self).staged().len() >= old(self).staged().len()
                    &&& used > 0 && final(self).staged().len() == old(self).staged().len() ==> final(self).closeness()
                        < old(self).closeness()
                    &&& used == 0 ==> final(self).closeness() == old(self).closeness()
                },
                Err(kind) => {
                    &&& old(self).total(*old(cursor)).refused == Some(kind)
                    &&& final(self).staged() == old(self).total(*old(cursor)).kept
                },
            },
    {
        let mut used: usize = 0;
        while used < granted && !self.finished && self.bytes.len() < OFFER_BYTES
            invariant
                used <= granted,
                self.well_formed(*cursor),
                self.config == old(self).config,
                self.facts == old(self).facts,
                self.total(*cursor) == old(self).total(*old(cursor)),
                self.bytes@.len() >= old(self).bytes@.len(),
                used > 0 && self.bytes@.len() == old(self).bytes@.len() ==> self.rank() < old(self).rank(),
                used == 0 ==> self.rank() == old(self).rank(),
            decreases granted - used,
        {
            match self.step(cursor) {
                Ok(_) => {}
                Err(kind) => return Err(kind),
            }
            used += 1;
        }
        proof {
            if self.finished {
                assert(self.total(*cursor) =~= self.written());
            }
        }
        Ok(used)
    }

    /// How close to its end the writing stands among states that stage no byte.
    pub closed spec fn closeness(self) -> int {
        self.rank()
    }

    /// Moves the staged bytes to `sink`.
    pub fn offer<'a>(&mut self, cursor: &JsonEncodeCursor<'a>, sink: &mut Vec<u8>)
        requires
            old(self).well_formed(*cursor),
        ensures
            final(sink)@ == old(sink)@ + old(self).staged(),
            final(self).staged().len() == 0,
            final(self).well_formed(*cursor),
            final(self).settings() == old(self).settings(),
            final(self).item_facts() == old(self).item_facts(),
            final(self).done() == old(self).done(),
            final(self).closeness() == old(self).closeness(),
            old(self).total(*cursor) == Rendering::of(old(self).staged()).then_write(final(self).total(*cursor)),
            final(self).total(*cursor).refused == old(self).total(*cursor).refused,
    {
        push_all(sink, self.bytes.as_slice());
        let ghost staged = self.bytes@;
        let ghost pending = self.pending(*cursor);
        self.bytes.clear();
        proof {
            assert(self.pending(*cursor) == pending);
            assert(old(self).total(*cursor) =~= Rendering::of(staged).then_write(self.total(*cursor)));
        }
    }

    /// Whether the item's last step has been taken. What is staged may still have to be offered.
    pub fn is_finished(&self) -> (finished: bool)
        ensures
            finished == self.done(),
    {
        self.finished
    }

    /// The report of the item that was written.
    pub fn report(&self) -> (report: PreservationReport)
        ensures
            report == self.current_report(),
    {
        PreservationReport {
            semantic_values: if self.normalized_semantics {
                PreservationOutcome::Normalized
            } else {
                PreservationOutcome::Exact
            },
            tags_and_facts: match self.facts {
                FactPreservation::Exact => {
                    if self.dropped_tag {
                        PreservationOutcome::Normalized
                    } else {
                        PreservationOutcome::Exact
                    }
                }
                FactPreservation::Omitted => PreservationOutcome::Omitted,
                FactPreservation::Indeterminate => PreservationOutcome::Indeterminate,
            },
            order: PreservationOutcome::Exact,
            spelling: PreservationOutcome::Normalized,
        }
    }

    /// The report of what was written so far.
    pub closed spec fn current_report(self) -> PreservationReport {
        report_of(self.normalized_semantics, self.dropped_tag, self.facts)
    }

    /// A finished encoder's report is its item's.
    pub proof fn lemma_report_is_the_items(self, cursor: JsonEncodeCursor)
        requires
            self.done(),
        ensures
            self.current_report() == report_of(
                self.total(cursor).float,
                self.total(cursor).tagged,
                self.item_facts(),
            ),
    {
    }

    /// Encodes one item into `sink`, followed by `trailer`: staged bytes are offered whenever there are enough of them,
    /// and the last of them together with the trailer. On a refusal the sink and what is still staged hold together what was
    /// written before it.
    #[verifier::spinoff_prover]
    pub fn encode(&mut self, item: &Item, trailer: &[u8], sink: &mut Vec<u8>) -> (report: Result<
        PreservationReport,
        CodecFailureKind,
    >)
        requires
            old(self).fresh(),
        ensures
            final(self).settings() == old(self).settings(),
            ({
                let whole = render_item(*item, old(self).settings());
                match report {
                    Ok(report) => {
                        &&& whole.refused is None
                        &&& final(sink)@ == old(sink)@ + whole.bytes + trailer@
                        &&& report == report_of(whole.float, whole.tagged, old(self).item_facts())
                    },
                    Err(kind) => {
                        &&& whole.refused == Some(kind)
                        &&& old(sink)@.is_prefix_of(final(sink)@)
                        &&& final(sink)@ + final(self).staged() == old(sink)@ + whole.kept
                    },
                }
            }),
    {
        let mut cursor = JsonEncodeCursor::new(item);
        proof {
            self.lemma_fresh_writes_the_item(cursor, *item);
        }
        let ghost whole = render_item(*item, self.config);
        let ghost mut offered: Seq<u8> = seq![];
        assert(Rendering::of(offered).then_write(self.total(cursor)) =~= whole);
        assert(sink@ =~= old(sink)@ + offered);
        while !self.finished
            invariant
                self.well_formed(cursor),
                self.config == old(self).config,
                self.facts == old(self).facts,
                whole == render_item(*item, old(self).config),
                Rendering::of(offered).then_write(self.total(cursor)) == whole,
                sink@ == old(sink)@ + offered,
            decreases whole.bytes.len() - offered.len() - self.bytes@.len(), self.rank(),
        {
            if self.bytes.len() >= OFFER_BYTES {
                let ghost staged = self.bytes@;
                self.offer(&cursor, sink);
                proof {
                    lemma_offered_first(offered, staged, self.total(cursor));
                    assert(sink@ =~= old(sink)@ + (offered + staged));
                    offered = offered + staged;
                }
            }
            match self.step(&mut cursor) {
                Ok(_) => {}
                Err(kind) => {
                    assert(sink@ + self.bytes@ =~= old(sink)@ + whole.kept);
                    return Err(kind);
                }
            }
        }
        let report = self.report();
        proof {
            assert(self.total(cursor) =~= self.written());
            self.lemma_report_is_the_items(cursor);
        }
        push_all(&mut self.bytes, trailer);
        push_all(sink, self.bytes.as_slice());
        self.bytes.clear();
        assert(sink@ =~= old(sink)@ + whole.bytes + trailer@);
        Ok(report)
    }
}

/// Bytes offered in two parts are offered as one.
proof fn lemma_offered_first(offered: Seq<u8>, staged: Seq<u8>, rest: Rendering)
    ensures
        Rendering::of(offered).then_write(Rendering::of(staged).then_write(rest)) == Rendering::of(
            offered + staged,
        ).then_write(rest),
{
    assert(Rendering::of(offered).then_write(Rendering::of(staged)) =~= Rendering::of(offered + staged));
    lemma_then_write_is_associative(Rendering::of(offered), Rendering::of(staged), rest);
}

/// A restarted encoder writes what a fresh one would: an item's bytes, refusal and notes depend on the render style, the
/// prefix and the framing alone, whatever was written before.
pub proof fn lemma_recycled_writes_what_fresh_writes(item: Item, recycled: EncodeConfig, fresh: EncodeConfig)
    requires
        recycled.render == fresh.render,
        recycled.prefix@ == fresh.prefix@,
        recycled.framing@ == fresh.framing@,
    ensures
        render_item(item, recycled) == render_item(item, fresh),
{
}

} // verus!
