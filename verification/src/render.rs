//! What an item's JSON is: the bytes of a value under a render style, said once, without regard to how an encoder
//! produces them.

use vstd::prelude::*;

use crate::ascii::{
    CLOSE_BRACE, CLOSE_BRACKET, COMMA, LF, LOWER_A, LOWER_E, LOWER_F, LOWER_L, LOWER_N, LOWER_R, LOWER_S, LOWER_T,
    LOWER_U, OPEN_BRACE, OPEN_BRACKET, QUOTE, SLASH, SPACE,
};

use crate::byte_scan::line_end;
use crate::encode_text::quoted;
use crate::error::CodecFailureKind;
use crate::options::{JsonEncodeOptions, JsonIndent};
use crate::value::{member_order, number_bytes, utf8, Item, Member, Value};

verus! {

/// How values are written.
#[derive(Clone, Copy, Debug, PartialEq, Eq, Structural)]
pub struct RenderStyle {
    /// The render options.
    pub options: JsonEncodeOptions,
    /// Whether leading comments are written.
    pub comments: bool,
    /// Whether a comma is written before every closing delimiter.
    pub trailing_commas: bool,
    /// How many containers may be open at once.
    pub max_nesting_depth: usize,
}

/// How an encoder writes its items.
pub struct EncodeConfig {
    /// How an item's values are written.
    pub render: RenderStyle,
    /// Bytes written before every ROOT value, except one that prints raw.
    pub prefix: Vec<u8>,
    /// Bytes appended once when the item completes.
    pub framing: Vec<u8>,
}

/// Compact JSON with nothing added: the style a value is spliced into a source with.
pub open spec fn compact_style(max_nesting_depth: usize) -> RenderStyle {
    RenderStyle {
        options: JsonEncodeOptions {
            indent: JsonIndent::Compact,
            raw_strings: false,
            sort_keys: false,
            ascii_output: false,
            raw_output_nul: false,
        },
        comments: false,
        trailing_commas: false,
        max_nesting_depth,
    }
}

impl EncodeConfig {
    /// The configuration with the commented dialects' two extras set.
    pub open spec fn with_extras(self, comments: bool, trailing_commas: bool) -> EncodeConfig {
        EncodeConfig { render: RenderStyle { comments, trailing_commas, ..self.render }, ..self }
    }

    /// This configuration with another nesting limit.
    pub open spec fn with_limit(self, max_nesting_depth: usize) -> EncodeConfig {
        EncodeConfig { render: RenderStyle { max_nesting_depth, ..self.render }, ..self }
    }
}

/// What writing something comes to: the bytes, the first refusal if there is one, and whether a tag was dropped or a
/// computed number normalized on the way.
#[verifier::ext_equal]
pub struct Rendering {
    pub bytes: Seq<u8>,
    /// The bytes before the first refusal: all of them where there is none.
    pub kept: Seq<u8>,
    pub refused: Option<CodecFailureKind>,
    pub tagged: bool,
    pub float: bool,
}

impl Rendering {
    /// Just these bytes.
    pub open spec fn of(bytes: Seq<u8>) -> Rendering {
        Rendering { bytes, kept: bytes, refused: None, tagged: false, float: false }
    }

    /// No bytes, and a refusal or none.
    pub open spec fn gate(refused: Option<CodecFailureKind>) -> Rendering {
        Rendering { bytes: seq![], kept: seq![], refused, tagged: false, float: false }
    }

    /// No bytes, and a dropped tag or none.
    pub open spec fn tag(tagged: bool) -> Rendering {
        Rendering { bytes: seq![], kept: seq![], refused: None, tagged, float: false }
    }

    /// This, and `next` after it.
    pub open spec fn then_write(self, next: Rendering) -> Rendering {
        Rendering {
            bytes: self.bytes + next.bytes,
            kept: if self.refused is Some {
                self.kept
            } else {
                self.kept + next.kept
            },
            refused: if self.refused is Some {
                self.refused
            } else {
                next.refused
            },
            tagged: self.tagged || next.tagged,
            float: self.float || next.float,
        }
    }
}

/// Writing is associative.
pub proof fn lemma_then_write_is_associative(a: Rendering, b: Rendering, c: Rendering)
    ensures
        a.then_write(b).then_write(c) == a.then_write(b.then_write(c)),
{
    assert(a.then_write(b).then_write(c) =~= a.then_write(b.then_write(c)));
}

/// A line break, and the indentation of a line inside `depth` open containers.
pub open spec fn line_break(indent: JsonIndent, depth: nat) -> Seq<u8> {
    seq![LF] + indent.indentation(depth)
}

/// Whether the indentation inside `depth` open containers can be addressed.
pub open spec fn indentable(indent: JsonIndent, depth: nat) -> bool {
    indent.indentation(depth).len() <= usize::MAX
}

/// What stands before an element or a closing delimiter: a line break, or nothing when compact.
pub open spec fn element_break(indent: JsonIndent, depth: nat) -> Seq<u8> {
    if indent == JsonIndent::Compact {
        seq![]
    } else {
        line_break(indent, depth)
    }
}

/// One comment line, up to its line break.
pub open spec fn comment_line(line: Seq<u8>) -> Seq<u8> {
    seq![SLASH, SLASH] + if line.len() > 0 {
        seq![SPACE] + line
    } else {
        seq![]
    }
}

/// A comment text as `//` lines, each line of the text its own: the one form that cannot be broken by its own content.
pub open spec fn comment_block(text: Seq<u8>, ending: Seq<u8>) -> Seq<u8>
    decreases text.len(),
{
    let end = line_end(text, 0);
    if 0 <= end < text.len() {
        comment_line(text.take(end)) + ending + comment_block(text.skip(end + 1), ending)
    } else {
        comment_line(text) + ending
    }
}

/// The comments that lead a node, as `//` lines that each end in `ending`.
pub open spec fn comment_lines(texts: Seq<String>, ending: Seq<u8>) -> Seq<u8>
    decreases texts.len(),
{
    if texts.len() == 0 {
        seq![]
    } else {
        comment_lines(texts.drop_last(), ending) + comment_block(utf8(texts.last()), ending)
    }
}

impl RenderStyle {
    /// The comments that lead a node inside `depth` open containers.
    pub open spec fn lead(self, comments: Seq<String>, depth: nat) -> Seq<u8> {
        if self.comments {
            comment_lines(comments, line_break(self.options.indent, depth))
        } else {
            seq![]
        }
    }

    /// Whether a ROOT string prints verbatim. `ascii_output` takes precedence.
    pub open spec fn prints_raw(self) -> bool {
        self.options.raw_strings && !self.options.ascii_output
    }

    /// Opening one more container inside `depth` open ones: refused past the nesting limit and, for one whose children are
    /// written on lines of their own, where their indentation is too long to be addressed.
    pub open spec fn nest(self, depth: nat, holds: bool) -> Rendering {
        Rendering::gate(
            if depth >= self.max_nesting_depth {
                Some(CodecFailureKind::NestingLimit)
            } else if holds && !indentable(self.options.indent, depth + 1) {
                Some(CodecFailureKind::Overflow)
            } else {
                None
            },
        )
    }

    /// What closes a non-empty container that `depth` open containers hold.
    pub open spec fn close(self, depth: nat, closer: u8) -> Rendering {
        let comma: Seq<u8> = if self.trailing_commas {
            seq![COMMA]
        } else {
            seq![]
        };
        Rendering::of(comma + element_break(self.options.indent, depth) + seq![closer])
    }

    /// What stands before element `index` of an array.
    pub open spec fn element_lead(self, item: Item, index: int, depth: nat) -> Rendering {
        let comma: Seq<u8> = if index > 0 {
            seq![COMMA]
        } else {
            seq![]
        };
        Rendering::of(comma + element_break(self.options.indent, depth) + self.lead(item.comments@, depth))
    }

    /// What stands before the value of an object's member, `first` or later.
    pub open spec fn member_lead(self, member: Member, first: bool, depth: nat) -> Rendering {
        let delimiter: Seq<u8> = if first {
            seq![OPEN_BRACE]
        } else {
            seq![COMMA]
        };
        Rendering::of(
            delimiter + element_break(self.options.indent, depth) + self.lead(member.item.comments@, depth) + quoted(
                utf8(member.key),
                self.options.ascii_output,
            ) + self.options.indent.separator(),
        )
    }

    /// A ROOT text that prints verbatim. Where NUL ends every item, a NUL of its own is refused.
    pub open spec fn raw_text(self, text: String) -> Rendering {
        Rendering::gate(
            if self.options.raw_output_nul && utf8(text).contains(0) {
                Some(CodecFailureKind::RawNulByte)
            } else {
                None
            },
        ).then_write(Rendering::of(utf8(text)))
    }

    /// Whether the item prefix is left out: a root string loses it under raw strings even where ascii output forces the
    /// quoted spelling, and a projected text where it prints raw.
    pub open spec fn skips_prefix(self, value: Value) -> bool {
        match value.bare() {
            Value::Text(_) => self.options.raw_strings,
            Value::Projected(_) => self.prints_raw(),
            _ => false,
        }
    }
}

/// `null`, `true`, or `false`.
pub open spec fn null_text() -> Seq<u8> {
    seq![LOWER_N, LOWER_U, LOWER_L, LOWER_L]
}

/// `true` or `false`.
pub open spec fn bool_text(value: bool) -> Seq<u8> {
    if value {
        seq![LOWER_T, LOWER_R, LOWER_U, LOWER_E]
    } else {
        seq![LOWER_F, LOWER_A, LOWER_L, LOWER_S, LOWER_E]
    }
}

/// A value inside `depth` open containers.
pub open spec fn render_value(value: Value, depth: nat, style: RenderStyle) -> Rendering
    decreases value, 0int,
{
    match value {
        Value::Null => Rendering::of(null_text()),
        Value::Bool(value) => Rendering::of(bool_text(value)),
        Value::Number(number) => Rendering {
            float: number is Float,
            ..Rendering::of(number_bytes(number))
        },
        Value::Text(text) => if depth == 0 && style.prints_raw() {
            style.raw_text(text)
        } else {
            Rendering::of(quoted(utf8(text), style.options.ascii_output))
        },
        Value::Projected(text) => if depth == 0 && style.prints_raw() {
            Rendering::of(utf8(text))
        } else {
            Rendering::of(seq![QUOTE] + utf8(text) + seq![QUOTE])
        },
        Value::Array(items) => if items.len() == 0 {
            style.nest(depth, false).then_write(Rendering::of(seq![OPEN_BRACKET, CLOSE_BRACKET]))
        } else {
            style.nest(depth, true).then_write(Rendering::of(seq![OPEN_BRACKET])).then_write(
                render_elements(items, 0, depth + 1, style),
            ).then_write(style.close(depth, CLOSE_BRACKET))
        },
        Value::Object(members) => if members.len() == 0 {
            style.nest(depth, false).then_write(Rendering::of(seq![OPEN_BRACE, CLOSE_BRACE]))
        } else {
            style.nest(depth, true).then_write(
                render_members(members, member_order(members@, style.options.sort_keys), 0, depth + 1, style),
            ).then_write(style.close(depth, CLOSE_BRACE))
        },
        Value::Tagged(inner) => Rendering::tag(true).then_write(render_value(*inner, depth, style)),
    }
}

/// An array's elements from `from` on, each with what stands before it.
pub open spec fn render_elements(items: Vec<Item>, from: int, depth: nat, style: RenderStyle) -> Rendering
    decreases items, items.len() - from,
{
    if from < 0 || from >= items.len() {
        Rendering::of(seq![])
    } else {
        style.element_lead(items[from], from, depth).then_write(
            render_value(items[from].value, depth, style),
        ).then_write(render_elements(items, from + 1, depth, style))
    }
}

/// An object's members in `order` from its position `from` on, each with what stands before it.
pub open spec fn render_members(
    members: Vec<Member>,
    order: Seq<usize>,
    from: int,
    depth: nat,
    style: RenderStyle,
) -> Rendering
    decreases members, order.len() - from,
{
    if from < 0 || from >= order.len() || order[from] >= members.len() {
        Rendering::of(seq![])
    } else {
        let member = members[order[from] as int];
        style.member_lead(member, from == 0, depth).then_write(
            render_value(member.item.value, depth, style),
        ).then_write(render_members(members, order, from + 1, depth, style))
    }
}

/// What stands before a root value: its leading comments, and the item prefix unless it is left out.
pub open spec fn root_lead(item: Item, config: EncodeConfig) -> Rendering {
    Rendering::of(
        config.render.lead(item.comments@, 0) + if config.render.skips_prefix(item.value) {
            seq![]
        } else {
            config.prefix@
        },
    )
}

/// A whole item: what stands before the root value, the value, and the framing.
pub open spec fn render_item(item: Item, config: EncodeConfig) -> Rendering {
    root_lead(item, config).then_write(render_value(item.value, 0, config.render)).then_write(Rendering::of(config.framing@))
}

/// A value renders as the value without its tags, but for the note that tags were dropped.
pub proof fn lemma_tags_leave_no_bytes(value: Value, depth: nat, style: RenderStyle)
    ensures
        render_value(value, depth, style) == Rendering::tag(value is Tagged).then_write(
            render_value(value.bare(), depth, style),
        ),
    decreases value,
{
    match value {
        Value::Tagged(inner) => {
            lemma_tags_leave_no_bytes(*inner, depth, style);
            assert(render_value(value, depth, style) =~= Rendering::tag(true).then_write(
                render_value(value.bare(), depth, style),
            ));
        },
        _ => {
            assert(render_value(value, depth, style) =~= Rendering::tag(false).then_write(
                render_value(value, depth, style),
            ));
        },
    }
}

/// A root text refused for its NUL leaves no byte of its own: what was written before the refusal is its leading comments.
pub proof fn lemma_refused_text_leaves_no_byte(item: Item, config: EncodeConfig)
    requires
        config.render.prints_raw(),
        config.render.options.raw_output_nul,
        item.value.bare() matches Value::Text(text) && utf8(text).contains(0),
    ensures
        render_item(item, config).refused == Some(CodecFailureKind::RawNulByte),
        render_item(item, config).kept == config.render.lead(item.comments@, 0),
{
    lemma_tags_leave_no_bytes(item.value, 0, config.render);
    assert(render_item(item, config).kept =~= config.render.lead(item.comments@, 0));
}

} // verus!
