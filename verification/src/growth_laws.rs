//! What a grown container holds: its old members, and then the new ones, each on its own.

use vstd::prelude::*;

use crate::ascii::{CLOSE_BRACE, CLOSE_BRACKET, COLON, COMMA, OPEN_BRACE, QUOTE, SPACE};

use crate::byte_scan::{json_ws, lemma_run_end, lemma_run_end_is, run_end, StopSet};
use crate::edit::{closer, closer_of, growth_plan, joint, opener, EditAppendMembers};
use crate::edit_laws::{lemma_separator_is_whitespace, members_spelled};
use crate::encode_text::{quoted, text_body};
use crate::lazy::{content_end, value_end};
use crate::render::{compact_style, render_value};
use crate::render_laws::{lemma_skip_passes_what_was_rendered, lemma_text_is_utf8, lemma_value_starts, spelled};
use crate::shape::{
    items_shape, lemma_back_to, lemma_item_by_prefix, lemma_items_end_values, lemma_scans_pass_items,
    lemma_skip_passes_a_value, lemma_string_shape, lemma_strict_text_is_one_region_to_both_scans, shape_end,
    value_place,
};
use crate::text_laws::{lemma_body_closes_at_its_quote, lemma_content_end_shifts};
use crate::value::utf8;

verus! {

/// Where the value of the item at `at` starts, as the skipping scans read it.
pub open spec fn read_place(bytes: Seq<u8>, at: int, keyed: bool) -> Option<int> {
    if !keyed {
        Some(at)
    } else if !(0 <= at < bytes.len()) || bytes[at] != QUOTE {
        None
    } else {
        match content_end(bytes, at + 1) {
            Some(quote) => {
                let colon = run_end(bytes, quote + 1, StopSet::Ws);
                if 0 <= colon < bytes.len() && bytes[colon] == COLON {
                    Some(run_end(bytes, colon + 1, StopSet::Ws))
                } else {
                    None
                }
            },
            None => None,
        }
    }
}

/// The texts of a container's items from the one at `at` on, each from its key or its value to its value's end; `None`
/// where they cannot be read.
pub open spec fn items_read(bytes: Seq<u8>, at: int, keyed: bool) -> Option<Seq<Seq<u8>>>
    decreases bytes.len() - at,
{
    match read_place(bytes, at, keyed) {
        Some(value) => {
            let end = value_end(bytes, value);
            let next = run_end(bytes, end, StopSet::Ws);
            let more = run_end(bytes, next + 1, StopSet::Ws);
            if !(0 <= at <= value < end <= next < bytes.len()) {
                None
            } else if bytes[next] == if keyed {
                CLOSE_BRACE
            } else {
                CLOSE_BRACKET
            } {
                Some(seq![bytes.subrange(at, end)])
            } else if bytes[next] == COMMA && next < more <= bytes.len() {
                match items_read(bytes, more, keyed) {
                    Some(rest) => Some(seq![bytes.subrange(at, end)] + rest),
                    None => None,
                }
            } else {
                None
            }
        },
        None => None,
    }
}

/// The texts of the members of the container opened at `open`.
pub open spec fn container_items(bytes: Seq<u8>, open: int) -> Option<Seq<Seq<u8>>> {
    let first = run_end(bytes, open + 1, StopSet::Ws);
    if 0 <= first < bytes.len() && bytes[first] == closer_of(bytes[open]) {
        Some(seq![])
    } else {
        items_read(bytes, first, bytes[open] == OPEN_BRACE)
    }
}

/// The texts of the added members from `from` on.
pub open spec fn pieces(members: EditAppendMembers, from: int, wrapped: bool, max_nesting_depth: usize) -> Seq<Seq<u8>>
    decreases members.count() - from,
{
    if from < 0 || from >= members.count() {
        seq![]
    } else {
        seq![members.piece(from, wrapped, max_nesting_depth).bytes] + pieces(
            members,
            from + 1,
            wrapped,
            max_nesting_depth,
        )
    }
}

/// The added members from `from` on, with what stands between them.
pub open spec fn added(
    members: EditAppendMembers,
    from: int,
    separator: Seq<u8>,
    empty: bool,
    wrapped: bool,
    max_nesting_depth: usize,
) -> Seq<u8>
    decreases members.count() - from,
{
    if from < 0 || from >= members.count() {
        seq![]
    } else if from + 1 < members.count() {
        members.piece(from, wrapped, max_nesting_depth).bytes + joint(from + 1, separator, empty) + added(
            members,
            from + 1,
            separator,
            empty,
            wrapped,
            max_nesting_depth,
        )
    } else {
        members.piece(from, wrapped, max_nesting_depth).bytes
    }
}

/// The added text is the members before `from`, what stands before it, and the rest.
pub proof fn lemma_added_text(
    members: EditAppendMembers,
    from: int,
    separator: Seq<u8>,
    empty: bool,
    wrapped: bool,
    max_nesting_depth: usize,
)
    requires
        0 <= from < members.count(),
    ensures
        members.text(members.count() as int, separator, empty, wrapped, max_nesting_depth).bytes == members.text(
            from,
            separator,
            empty,
            wrapped,
            max_nesting_depth,
        ).bytes + joint(from, separator, empty) + added(members, from, separator, empty, wrapped, max_nesting_depth),
    decreases members.count() - from,
{
    let before = members.text(from, separator, empty, wrapped, max_nesting_depth).bytes;
    let lead = joint(from, separator, empty);
    let piece = members.piece(from, wrapped, max_nesting_depth).bytes;
    lemma_text_grows(members, from, separator, empty, wrapped, max_nesting_depth);
    if from + 1 < members.count() {
        lemma_added_text(members, from + 1, separator, empty, wrapped, max_nesting_depth);
        lemma_regroup_added(
            before,
            lead,
            piece,
            joint(from + 1, separator, empty),
            added(members, from + 1, separator, empty, wrapped, max_nesting_depth),
        );
    }
}

/// The text of one member more.
proof fn lemma_text_grows(
    members: EditAppendMembers,
    from: int,
    separator: Seq<u8>,
    empty: bool,
    wrapped: bool,
    max_nesting_depth: usize,
)
    requires
        0 <= from,
    ensures
        members.text(from + 1, separator, empty, wrapped, max_nesting_depth).bytes == members.text(
            from,
            separator,
            empty,
            wrapped,
            max_nesting_depth,
        ).bytes + joint(from, separator, empty) + members.piece(from, wrapped, max_nesting_depth).bytes,
{
}

proof fn lemma_regroup_added(before: Seq<u8>, lead: Seq<u8>, piece: Seq<u8>, next: Seq<u8>, later: Seq<u8>)
    ensures
        (before + lead + piece) + next + later == before + lead + (piece + next + later),
{
    assert((before + lead + piece) + next + later =~= before + lead + (piece + next + later));
}

/// An added member is read as what it was written as, wherever it stands before a delimiter.
pub proof fn lemma_piece_is_read(
    before: Seq<u8>,
    members: EditAppendMembers,
    index: int,
    wrapped: bool,
    max_nesting_depth: usize,
    behind: Seq<u8>,
)
    requires
        members_spelled(members),
        0 <= index < members.count(),
        behind.len() > 0 && StopSet::Delimiter.stops(behind[0]),
    ensures
        ({
            let piece = members.piece(index, wrapped, max_nesting_depth).bytes;
            &&& piece_reads(before, piece, behind, members is Table)
            &&& !json_ws(piece[0]) && !closer(piece[0])
        }),
{
    let style = compact_style(max_nesting_depth);
    let piece = members.piece(index, wrapped, max_nesting_depth).bytes;
    let whole = before + piece + behind;
    match members {
        EditAppendMembers::Array(items) => {
            assert(spelled(items@[index].value));
            lemma_value_starts(items@[index].value, 0, style);
            lemma_skip_passes_what_was_rendered(before, items@[index].value, 0, style, behind);
        },
        EditAppendMembers::Table(table) => {
            let member = table@[index];
            assert(spelled(table@[index].item.value));
            let body = text_body(utf8(member.key), false);
            let gap: Seq<u8> = if wrapped {
                seq![COLON, SPACE]
            } else {
                seq![COLON]
            };
            let value = render_value(member.item.value, 0, style).bytes;
            let opening = before + seq![QUOTE];
            let tail = gap + value + behind;
            let lead = opening + body + seq![QUOTE] + gap;
            lemma_text_is_utf8(member.key);
            lemma_value_starts(member.item.value, 0, style);
            lemma_body_closes_at_its_quote(utf8(member.key), false, tail);
            lemma_content_end_shifts(opening, body + seq![QUOTE] + tail, 0);
            assert(piece =~= quoted(utf8(member.key), false) + gap + value);
            assert(whole =~= opening + (body + seq![QUOTE] + tail));
            assert(whole =~= lead + value + behind);
            let quote: int = opening.len() + body.len() as int;
            assert(content_end(whole, opening.len() as int) == Some(quote));
            assert(whole[before.len() as int] == QUOTE);
            assert(whole[quote + 1] == gap[0]);
            lemma_run_end_is(whole, quote + 1, StopSet::Ws, quote + 1);
            assert(whole[lead.len() as int] == value[0]);
            if wrapped {
                assert(whole[quote + 2] == gap[1]);
            }
            lemma_run_end_is(whole, quote + 2, StopSet::Ws, lead.len() as int);
            lemma_skip_passes_what_was_rendered(lead, member.item.value, 0, style, behind);
        },
    }
}

/// A separator is a comma and whitespace.
pub open spec fn separates(separator: Seq<u8>) -> bool {
    separator.len() > 0 && separator[0] == COMMA && forall|i: int|
        1 <= i < separator.len() ==> json_ws(#[trigger] separator[i])
}

/// What stands behind a container's last value: whitespace, and its closing delimiter.
spec fn closes(tail: Seq<u8>, keyed: bool, gap: int) -> bool {
    &&& 0 <= gap < tail.len()
    &&& forall|i: int| 0 <= i < gap ==> json_ws(#[trigger] tail[i])
    &&& tail[gap] == if keyed {
        CLOSE_BRACE
    } else {
        CLOSE_BRACKET
    }
}

/// Whether the item `piece` is read where it stands, behind `before`.
pub open spec fn piece_reads(before: Seq<u8>, piece: Seq<u8>, behind: Seq<u8>, keyed: bool) -> bool {
    let whole = before + piece + behind;
    &&& piece.len() > 0
    &&& read_place(whole, before.len() as int, keyed) matches Some(value) && before.len() <= value && value < before.len()
        + piece.len() && value_end(whole, value) == before.len() + piece.len()
}

/// An item, a separator and the items behind it are read one by one.
proof fn lemma_item_then_rest(
    before: Seq<u8>,
    piece: Seq<u8>,
    lead: Seq<u8>,
    later: Seq<u8>,
    keyed: bool,
    rest: Seq<Seq<u8>>,
)
    requires
        piece_reads(before, piece, lead + later, keyed),
        separates(lead),
        later.len() > 0 && !json_ws(later[0]),
        items_read(before + piece + lead + later, (before + piece + lead).len() as int, keyed) == Some(rest),
    ensures
        items_read(before + piece + lead + later, before.len() as int, keyed) == Some(seq![piece] + rest),
{
    let whole = before + piece + lead + later;
    assert(whole =~= before + piece + (lead + later));
    let at = before.len() as int;
    let end = at + piece.len();
    let start = end + lead.len();
    assert(whole[end] == lead[0]);
    lemma_run_end_is(whole, end, StopSet::Ws, end);
    assert forall|i: int| end + 1 <= i < start implies !StopSet::Ws.stops(#[trigger] whole[i]) by {
        assert(whole[i] == lead[i - end]);
    }
    assert(whole[start] == later[0]);
    lemma_run_end_is(whole, end + 1, StopSet::Ws, start);
    assert(whole.subrange(at, end) =~= piece);
}

/// The last item is read up to the closing delimiter.
proof fn lemma_item_then_close(before: Seq<u8>, piece: Seq<u8>, tail: Seq<u8>, keyed: bool, gap: int)
    requires
        piece_reads(before, piece, tail, keyed),
        closes(tail, keyed, gap),
    ensures
        items_read(before + piece + tail, before.len() as int, keyed) == Some(seq![piece]),
{
    let whole = before + piece + tail;
    let at = before.len() as int;
    let end = at + piece.len();
    assert forall|i: int| end <= i < end + gap implies !StopSet::Ws.stops(#[trigger] whole[i]) by {
        assert(whole[i] == tail[i - end]);
    }
    assert(whole[end + gap] == tail[gap]);
    lemma_run_end_is(whole, end, StopSet::Ws, end + gap);
    assert(whole.subrange(at, end) =~= piece);
}

/// The added members are read one by one.
proof fn lemma_added_items_are_read(
    before: Seq<u8>,
    members: EditAppendMembers,
    from: int,
    separator: Seq<u8>,
    empty: bool,
    wrapped: bool,
    max_nesting_depth: usize,
    tail: Seq<u8>,
    gap: int,
)
    requires
        members_spelled(members),
        0 <= from < members.count(),
        !empty ==> separates(separator),
        closes(tail, members is Table, gap),
    ensures
        items_read(
            before + added(members, from, separator, empty, wrapped, max_nesting_depth) + tail,
            before.len() as int,
            members is Table,
        ) == Some(pieces(members, from, wrapped, max_nesting_depth)),
    decreases members.count() - from,
{
    let piece = members.piece(from, wrapped, max_nesting_depth).bytes;
    if from + 1 < members.count() {
        let lead = joint(from + 1, separator, empty);
        let more = added(members, from + 1, separator, empty, wrapped, max_nesting_depth);
        let later = more + tail;
        assert(separates(lead));
        assert((lead + later)[0] == lead[0]);
        lemma_piece_is_read(before, members, from, wrapped, max_nesting_depth, lead + later);
        lemma_added_items_are_read(
            before + piece + lead,
            members,
            from + 1,
            separator,
            empty,
            wrapped,
            max_nesting_depth,
            tail,
            gap,
        );
        lemma_later_starts(members, from + 1, separator, empty, wrapped, max_nesting_depth);
        assert(later[0] == more[0]);
        lemma_regroup_read(before, piece, lead, more, tail);
        lemma_item_then_rest(
            before,
            piece,
            lead,
            later,
            members is Table,
            pieces(members, from + 1, wrapped, max_nesting_depth),
        );
    } else {
        lemma_piece_is_read(before, members, from, wrapped, max_nesting_depth, tail);
        lemma_item_then_close(before, piece, tail, members is Table, gap);
        assert(pieces(members, from + 1, wrapped, max_nesting_depth) =~= Seq::<Seq<u8>>::empty());
        assert(pieces(members, from, wrapped, max_nesting_depth) =~= seq![piece]);
    }
}

proof fn lemma_regroup_read(before: Seq<u8>, piece: Seq<u8>, lead: Seq<u8>, more: Seq<u8>, tail: Seq<u8>)
    ensures
        before + piece + lead + more + tail == before + piece + lead + (more + tail),
        before + (piece + lead + more) + tail == before + piece + lead + (more + tail),
{
    assert(before + piece + lead + more + tail =~= before + piece + lead + (more + tail));
    assert(before + (piece + lead + more) + tail =~= before + piece + lead + (more + tail));
}

/// The added members start with a byte of their own.
proof fn lemma_later_starts(
    members: EditAppendMembers,
    from: int,
    separator: Seq<u8>,
    empty: bool,
    wrapped: bool,
    max_nesting_depth: usize,
)
    requires
        members_spelled(members),
        0 <= from < members.count(),
    ensures
        ({
            let text = added(members, from, separator, empty, wrapped, max_nesting_depth);
            text.len() > 0 && !json_ws(text[0]) && !closer(text[0])
        }),
{
    let text = added(members, from, separator, empty, wrapped, max_nesting_depth);
    let piece = members.piece(from, wrapped, max_nesting_depth).bytes;
    lemma_piece_is_read(seq![], members, from, wrapped, max_nesting_depth, seq![COMMA]);
    assert(text[0] == piece[0]);
}

/// The old items are read as they were, and the new ones behind them.
proof fn lemma_old_items_then_new(source: Seq<u8>, grown: Seq<u8>, at: int, keyed: bool, rest: Seq<Seq<u8>>)
    requires
        items_shape(source, at, keyed) is Some,
        ({
            let place = (items_shape(source, at, keyed)->0).value_end;
            &&& place < grown.len()
            &&& forall|i: int| 0 <= i < place ==> #[trigger] source[i] == grown[i]
            &&& grown[place] == COMMA
            &&& items_read(grown, run_end(grown, place + 1, StopSet::Ws), keyed) == Some(rest)
        }),
    ensures
        items_read(source, at, keyed) is Some,
        items_read(grown, at, keyed) == Some(items_read(source, at, keyed)->0 + rest),
    decreases source.len() - at,
{
    let items = items_shape(source, at, keyed)->0;
    let place = items.value_end;
    lemma_scans_pass_items(source, at, keyed, 1, 0);
    lemma_items_end_values(source, at, keyed);
    let value = value_place(source, at, keyed)->0;
    let end = shape_end(source, value)->0;
    let next = run_end(source, end, StopSet::Ws);
    let more = run_end(source, next + 1, StopSet::Ws);
    lemma_run_end(source, end, StopSet::Ws);
    if source[next] == COMMA {
        lemma_scans_pass_items(source, more, keyed, 1, 0);
    }
    lemma_item_by_prefix(source, grown, at, keyed, place);
    lemma_place_is_read(source, at, keyed);
    lemma_place_is_read(grown, at, keyed);
    assert(source.subrange(at, end) =~= grown.subrange(at, end));
    if source[next] == COMMA {
        assert(source[end] == grown[end]);
        assert(StopSet::Delimiter.stops(grown[end])) by {
            if end < next {
                assert(!StopSet::Ws.stops(source[end]));
            }
        }
        lemma_skip_passes_a_value(grown, value);
        lemma_run_end(source, next + 1, StopSet::Ws);
        assert forall|i: int| end <= i < next implies !StopSet::Ws.stops(#[trigger] grown[i]) by {
            assert(source[i] == grown[i]);
        }
        assert(source[next] == grown[next]);
        lemma_run_end_is(grown, end, StopSet::Ws, next);
        assert forall|i: int| next + 1 <= i < more implies !StopSet::Ws.stops(#[trigger] grown[i]) by {
            assert(source[i] == grown[i]);
        }
        assert(source[more] == grown[more]);
        lemma_run_end_is(grown, next + 1, StopSet::Ws, more);
        lemma_old_items_then_new(source, grown, more, keyed, rest);
        let own = seq![source.subrange(at, end)];
        let old = items_read(source, more, keyed)->0;
        assert(own + (old + rest) =~= (own + old) + rest);
    } else {
        assert(place == end);
        lemma_skip_passes_a_value(grown, value);
        lemma_run_end_is(grown, end, StopSet::Ws, end);
        lemma_run_end(grown, end + 1, StopSet::Ws);
    }
}

/// An item of JSON's shape has its value where the skipping scans read it.
pub proof fn lemma_place_is_read(bytes: Seq<u8>, at: int, keyed: bool)
    requires
        0 <= at,
        value_place(bytes, at, keyed) is Some,
    ensures
        read_place(bytes, at, keyed) == value_place(bytes, at, keyed),
{
    if keyed {
        lemma_string_shape(bytes, at + 1);
    }
}

/// A grown container holds its old members and then the new ones, each on its own: reading the members of a strict
/// container with the new ones spliced in gives the texts that were there, unchanged and in order, and behind them the
/// texts of the added members.
pub proof fn lemma_grown_container_holds_old_and_new(
    source: Seq<u8>,
    open: int,
    members: EditAppendMembers,
    max_nesting_depth: usize,
)
    requires
        0 <= open < source.len(),
        opener(source[open]),
        shape_end(source, open) is Some,
        members is Table <==> source[open] == OPEN_BRACE,
        members.count() > 0,
        members_spelled(members),
    ensures
        growth_plan(source, open) is Some,
        container_items(source, open) is Some,
        ({
            let plan = growth_plan(source, open)->0;
            let text = members.text(
                members.count() as int,
                plan.separator,
                plan.empty,
                plan.wrapped,
                max_nesting_depth,
            ).bytes;
            container_items(source.take(plan.at) + text + source.skip(plan.at), open) == Some(
                container_items(source, open)->0 + pieces(members, 0, plan.wrapped, max_nesting_depth),
            )
        }),
{
    let keyed = source[open] == OPEN_BRACE;
    let close = shape_end(source, open)->0;
    lemma_strict_text_is_one_region_to_both_scans(source, open);
    let plan = growth_plan(source, open)->0;
    let new = pieces(members, 0, plan.wrapped, max_nesting_depth);
    let text = members.text(
        members.count() as int,
        plan.separator,
        plan.empty,
        plan.wrapped,
        max_nesting_depth,
    ).bytes;
    let rest = added(members, 0, plan.separator, plan.empty, plan.wrapped, max_nesting_depth);
    let lead = joint(0, plan.separator, plan.empty);
    let head = source.take(plan.at);
    let tail = source.skip(plan.at);
    let grown = head + text + tail;
    let first = run_end(source, open + 1, StopSet::Ws);
    lemma_run_end(source, open + 1, StopSet::Ws);
    lemma_added_text(members, 0, plan.separator, plan.empty, plan.wrapped, max_nesting_depth);
    assert(text =~= lead + rest);
    lemma_later_starts(members, 0, plan.separator, plan.empty, plan.wrapped, max_nesting_depth);
    assert(grown =~= head + lead + rest + tail);
    if source[first] == closer_of(source[open]) {
        assert forall|i: int| open + 1 <= i < first implies json_ws(#[trigger] source[i]) by {
            assert(!StopSet::Ws.stops(source[i]));
        }
        lemma_back_to(source, close - 1, open, open + 1);
        assert(plan.empty && plan.at == open + 1);
        lemma_tail_closes(source, open + 1, close, keyed);
        lemma_added_items_are_read(
            head,
            members,
            0,
            plan.separator,
            plan.empty,
            plan.wrapped,
            max_nesting_depth,
            tail,
            first - (open + 1),
        );
        assert(head + lead =~= head);
        lemma_empty_container_grows(source, grown, open, rest, tail, new);
    } else {
        lemma_scans_pass_items(source, first, keyed, 1, open);
        let place = (items_shape(source, first, keyed)->0).value_end;
        lemma_back_to(source, close - 1, open, place);
        assert(!plan.empty && plan.at == place);
        lemma_separator_is_whitespace(source, open, place, close, plan.wrapped);
        assert(separates(lead));
        lemma_tail_closes(source, place, close, keyed);
        lemma_added_items_are_read(
            head + lead,
            members,
            0,
            plan.separator,
            plan.empty,
            plan.wrapped,
            max_nesting_depth,
            tail,
            close - 1 - place,
        );
        lemma_container_grows(source, open, lead, rest, new);
    }
}

/// What stands behind a container's last value closes it.
proof fn lemma_tail_closes(source: Seq<u8>, place: int, close: int, keyed: bool)
    requires
        0 <= place < close <= source.len(),
        forall|i: int| place <= i < close - 1 ==> json_ws(#[trigger] source[i]),
        source[close - 1] == if keyed {
            CLOSE_BRACE
        } else {
            CLOSE_BRACKET
        },
    ensures
        closes(source.skip(place), keyed, close - 1 - place),
{
    let tail = source.skip(place);
    assert forall|i: int| 0 <= i < close - 1 - place implies json_ws(#[trigger] tail[i]) by {
        assert(tail[i] == source[place + i]);
    }
}

/// An empty container's new members are read from its opening delimiter on.
proof fn lemma_empty_container_grows(
    source: Seq<u8>,
    grown: Seq<u8>,
    open: int,
    rest: Seq<u8>,
    tail: Seq<u8>,
    new: Seq<Seq<u8>>,
)
    requires
        0 <= open < source.len(),
        opener(source[open]),
        grown == source.take(open + 1) + rest + tail,
        rest.len() > 0 && !json_ws(rest[0]) && !closer(rest[0]),
        items_read(grown, open + 1, source[open] == OPEN_BRACE) == Some(new),
        container_items(source, open) == Some(Seq::<Seq<u8>>::empty()),
    ensures
        container_items(grown, open) == Some(container_items(source, open)->0 + new),
{
    assert(grown[open + 1] == rest[0]);
    assert(grown[open] == source[open]);
    lemma_run_end_is(grown, open + 1, StopSet::Ws, open + 1);
    assert(Seq::<Seq<u8>>::empty() + new =~= new);
}

/// A container's new members are read behind its old ones.
proof fn lemma_container_grows(source: Seq<u8>, open: int, lead: Seq<u8>, rest: Seq<u8>, new: Seq<Seq<u8>>)
    requires
        0 <= open < source.len(),
        opener(source[open]),
        separates(lead),
        rest.len() > 0 && !json_ws(rest[0]),
        ({
            let keyed = source[open] == OPEN_BRACE;
            let first = run_end(source, open + 1, StopSet::Ws);
            let place = (items_shape(source, first, keyed)->0).value_end;
            let before = source.take(place) + lead;
            &&& first < source.len() && source[first] != closer_of(source[open])
            &&& items_shape(source, first, keyed) is Some
            &&& items_read(before + rest + source.skip(place), before.len() as int, keyed) == Some(new)
        }),
    ensures
        ({
            let first = run_end(source, open + 1, StopSet::Ws);
            let place = (items_shape(source, first, source[open] == OPEN_BRACE)->0).value_end;
            &&& container_items(source, open) is Some
            &&& container_items(source.take(place) + lead + rest + source.skip(place), open) == Some(
                container_items(source, open)->0 + new,
            )
        }),
{
    let keyed = source[open] == OPEN_BRACE;
    let first = run_end(source, open + 1, StopSet::Ws);
    lemma_run_end(source, open + 1, StopSet::Ws);
    lemma_scans_pass_items(source, first, keyed, 1, 0);
    let place = (items_shape(source, first, keyed)->0).value_end;
    let before = source.take(place) + lead;
    let grown = before + rest + source.skip(place);
    assert forall|i: int| place + 1 <= i < before.len() implies !StopSet::Ws.stops(#[trigger] grown[i]) by {
        assert(grown[i] == lead[i - place]);
    }
    assert(grown[before.len() as int] == rest[0]);
    lemma_run_end_is(grown, place + 1, StopSet::Ws, before.len() as int);
    assert(grown[place] == lead[0]);
    assert forall|i: int| 0 <= i < place implies #[trigger] source[i] == grown[i] by {}
    lemma_old_items_then_new(source, grown, first, keyed, new);
    assert(grown[open] == source[open]);
    assert(grown[first] == source[first]);
    assert forall|i: int| open + 1 <= i < first implies !StopSet::Ws.stops(#[trigger] grown[i]) by {
        assert(source[i] == grown[i]);
    }
    lemma_run_end_is(grown, open + 1, StopSet::Ws, first);
}

} // verus!
