//! Where a scan for bytes that are no UTF-8 stops.

use vstd::prelude::*;
use vstd::utf8::{length_of_first_scalar, pop_first_scalar, valid_first_scalar, valid_utf8};

use crate::byte_scan::{cut_short, lemma_starts_by_ranges, scan_outcome, valid_up_to};

verus! {

proof fn lemma_valid_text_is_passed(before: Seq<u8>, rest: Seq<u8>)
    requires
        valid_utf8(before),
        !valid_first_scalar(rest),
    ensures
        valid_up_to(before + rest) == before.len(),
    decreases before.len(),
{
    let whole = before + rest;
    if before.len() == 0 {
        assert(whole =~= rest);
    } else {
        lemma_starts_by_ranges(before);
        lemma_starts_by_ranges(whole);
        assert(forall|k: int| 0 <= k < before.len() ==> whole[k] == before[k]);
        assert(length_of_first_scalar(whole) == length_of_first_scalar(before));
        let left = pop_first_scalar(before);
        assert(pop_first_scalar(whole) =~= left + rest);
        lemma_valid_text_is_passed(left, rest);
    }
}

/// A scan passes over a whole valid text, and stops right behind it, at the first byte of what is no character. In the last
/// window that byte is named. In an earlier one it is named only where no bytes to come could make a character of it, and
/// otherwise what stands there is kept for the next window, all of it.
pub proof fn lemma_scan_stops_behind_the_valid_text(before: Seq<u8>, rest: Seq<u8>, end: int, last: bool)
    requires
        valid_utf8(before),
        !valid_first_scalar(rest),
    ensures
        ({
            let (found, kept) = scan_outcome(before + rest, end, last);
            let hopeful = exists|more: Seq<u8>| #[trigger] valid_first_scalar(rest + more);
            &&& rest.len() == 0 ==> found is None && kept.len() == 0
            &&& rest.len() > 0 && (last || !hopeful) ==> found == Some(end - rest.len())
            &&& rest.len() > 0 && !last && hopeful ==> found is None && kept == rest
        }),
{
    lemma_valid_text_is_passed(before, rest);
    assert((before + rest).skip(before.len() as int) =~= rest);
    assert(rest.len() > 0 ==> (cut_short(rest) <==> exists|more: Seq<u8>| #[trigger] valid_first_scalar(rest + more)));
}

} // verus!
