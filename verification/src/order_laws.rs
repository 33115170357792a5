//! What sorted keys promise: the order of the members' own bytes.

use vstd::prelude::*;

use crate::value::{bytes_before, lemma_member_order, member_order, utf8, Member};

verus! {

/// Whether `left` and `right` are the same up to `at`, and part there.
pub open spec fn parts_at(left: Seq<u8>, right: Seq<u8>, at: int) -> bool {
    &&& 0 <= at <= left.len() && at <= right.len()
    &&& forall|i: int| 0 <= i < at ==> #[trigger] left[i] == right[i]
    &&& at < left.len() && at < right.len() ==> left[at] != right[at]
}

/// Where two byte strings part decides which comes first: at the first index where they differ the one with the smaller byte
/// does, whatever their lengths, and where one ends first without a difference, that one does.
pub proof fn lemma_bytes_part_by_their_first_difference(left: Seq<u8>, right: Seq<u8>, at: int)
    requires
        parts_at(left, right, at),
    ensures
        at < left.len() && at < right.len() ==> (bytes_before(left, right) <==> left[at] < right[at]),
        at == left.len() && at < right.len() ==> bytes_before(left, right),
        at == right.len() ==> !bytes_before(left, right),
    decreases at,
{
    if at > 0 {
        assert(left[0] == right[0]);
        let (l, r) = (left.skip(1), right.skip(1));
        assert forall|i: int| 0 <= i < at - 1 implies #[trigger] l[i] == r[i] by {
            assert(l[i] == left[i + 1]);
            assert(r[i] == right[i + 1]);
        }
        lemma_bytes_part_by_their_first_difference(l, r, at - 1);
    }
}

/// Two byte strings part somewhere.
proof fn lemma_bytes_part(left: Seq<u8>, right: Seq<u8>, from: int) -> (at: int)
    requires
        0 <= from <= left.len(),
        from <= right.len(),
        forall|i: int| 0 <= i < from ==> #[trigger] left[i] == right[i],
    ensures
        parts_at(left, right, at),
    decreases left.len() - from,
{
    if from < left.len() && from < right.len() && left[from] == right[from] {
        lemma_bytes_part(left, right, from + 1)
    } else {
        from
    }
}

/// With sorted keys, of two members the one that is written first has the smaller key: at the first index where the bytes of
/// the two keys differ its byte is the smaller one, or it is a prefix of the other; and where the keys are the same it
/// comes first in the document. Every member is written, each once, sorted or not, and unsorted members keep their order.
pub proof fn lemma_sorted_members_ascend(members: Seq<Member>, a: int, b: int) -> (at: int)
    requires
        0 <= a < b < members.len(),
        members.len() <= usize::MAX,
    ensures
        ({
            let order = member_order(members, true);
            let left = utf8(members[order[a] as int].key);
            let right = utf8(members[order[b] as int].key);
            &&& order.len() == members.len()
            &&& order[a] < members.len() && order[b] < members.len() && order[a] != order[b]
            &&& parts_at(left, right, at)
            &&& {
                ||| at < left.len() && at < right.len() && left[at] < right[at]
                ||| at == left.len() && at < right.len()
                ||| at == left.len() && at == right.len() && order[a] < order[b]
            }
        }),
        member_order(members, false).len() == members.len(),
        member_order(members, false)[a] == a,
        member_order(members, false)[b] == b,
{
    lemma_member_order(members, true);
    lemma_member_order(members, false);
    let order = member_order(members, true);
    let left = utf8(members[order[a] as int].key);
    let right = utf8(members[order[b] as int].key);
    let at = lemma_bytes_part(left, right, 0);
    lemma_bytes_part_by_their_first_difference(left, right, at);
    assert(crate::value::member_first(members, order[a] as int, order[b] as int));
    at
}

} // verus!
