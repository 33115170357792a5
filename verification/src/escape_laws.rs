//! What the escapes of a string stand for, one by one.

use vstd::prelude::*;

use crate::lazy::{content_end, unescaped};

verus! {

/// What a hexadecimal digit of either case counts for.
pub open spec fn nibble(byte: u8) -> int {
    if 0x30 <= byte <= 0x39 {
        byte - 0x30
    } else if 0x61 <= byte <= 0x66 {
        byte - 0x61 + 10
    } else {
        byte - 0x41 + 10
    }
}

/// Whether a byte is a hexadecimal digit, of either case.
pub open spec fn is_nibble(byte: u8) -> bool {
    0x30 <= byte <= 0x39 || 0x61 <= byte <= 0x66 || 0x41 <= byte <= 0x46
}

/// What four hexadecimal digits spell.
pub open spec fn quad(a: u8, b: u8, c: u8, d: u8) -> int {
    nibble(a) * 4096 + nibble(b) * 256 + nibble(c) * 16 + nibble(d)
}

/// The short escape that a backslash and `letter` make, by the code point it stands for.
pub open spec fn short_escape(letter: u8) -> Option<int> {
    if letter == 0x22 || letter == 0x5c || letter == 0x2f {
        Some(letter as int)
    } else if letter == 0x62 {
        Some(8)
    } else if letter == 0x74 {
        Some(9)
    } else if letter == 0x6e {
        Some(10)
    } else if letter == 0x66 {
        Some(12)
    } else if letter == 0x72 {
        Some(13)
    } else {
        None
    }
}

/// What stands in front of a text.
pub open spec fn in_front(first: int, rest: Option<Seq<char>>) -> Option<Seq<char>> {
    match rest {
        Some(rest) => Some(seq![first as char] + rest),
        None => None,
    }
}

/// A backslash and a letter stand for the one character that JSON gives them, whatever follows; a backslash and any other
/// byte but `u` are no escape.
pub proof fn lemma_short_escapes_are_read(letter: u8, rest: Seq<u8>)
    requires
        letter != 0x75,
    ensures
        unescaped(seq![0x5cu8, letter] + rest) == match short_escape(letter) {
            Some(point) => in_front(point, unescaped(rest)),
            None => None,
        },
{
    let raw = seq![0x5cu8, letter] + rest;
    assert(raw[0] == 0x5c && raw[1] == letter);
    assert(raw.skip(2) =~= rest);
}

/// A backslash, `u` and four hexadecimal digits of either case stand for the character they count to, unless that is half of a
/// surrogate pair: a lower half on its own stands for the replacement character, and an upper half on its own for
/// nothing.
pub proof fn lemma_unicode_escapes_are_read(a: u8, b: u8, c: u8, d: u8, rest: Seq<u8>)
    requires
        is_nibble(a) && is_nibble(b) && is_nibble(c) && is_nibble(d),
    ensures
        ({
            let raw = seq![0x5cu8, 0x75, a, b, c, d] + rest;
            let point = quad(a, b, c, d);
            &&& point < 0xd800 || point > 0xdfff ==> unescaped(raw) == in_front(point, unescaped(rest))
            &&& 0xdc00 <= point <= 0xdfff ==> unescaped(raw) == in_front(0xfffd, unescaped(rest))
            &&& 0xd800 <= point <= 0xdbff && !(rest.len() >= 2 && rest[0] == 0x5c && rest[1] == 0x75) ==> unescaped(raw)
                is None
        }),
{
    let raw = seq![0x5cu8, 0x75, a, b, c, d] + rest;
    assert(raw[0] == 0x5c && raw[1] == 0x75 && raw[2] == a && raw[3] == b && raw[4] == c && raw[5] == d);
    assert(raw.skip(6) =~= rest);
    if rest.len() >= 2 {
        assert(raw[6] == rest[0] && raw[7] == rest[1]);
    }
}

/// Both halves of a surrogate pair, each escaped, stand for the one character they count to together.
pub proof fn lemma_surrogate_pairs_are_read(raw: Seq<u8>)
    requires
        raw.len() >= 12,
        raw[0] == 0x5c && raw[1] == 0x75 && raw[6] == 0x5c && raw[7] == 0x75,
        is_nibble(raw[2]) && is_nibble(raw[3]) && is_nibble(raw[4]) && is_nibble(raw[5]),
        is_nibble(raw[8]) && is_nibble(raw[9]) && is_nibble(raw[10]) && is_nibble(raw[11]),
        0xd800 <= quad(raw[2], raw[3], raw[4], raw[5]) <= 0xdbff,
    ensures
        ({
            let upper = quad(raw[2], raw[3], raw[4], raw[5]);
            let lower = quad(raw[8], raw[9], raw[10], raw[11]);
            unescaped(raw) == if 0xdc00 <= lower <= 0xdfff {
                in_front(0x10000 + (upper - 0xd800) * 0x400 + (lower - 0xdc00), unescaped(raw.skip(12)))
            } else {
                None
            }
        }),
{
}

/// An ASCII character that needs no escape stands for itself.
pub proof fn lemma_plain_characters_are_read(byte: u8, rest: Seq<u8>)
    requires
        byte < 0x80,
        byte != 0x5c,
    ensures
        unescaped(seq![byte] + rest) == in_front(byte as int, unescaped(rest)),
{
    let raw = seq![byte] + rest;
    assert(raw[0] == byte);
    crate::byte_scan::lemma_starts_by_ranges(raw);
    crate::text_laws::lemma_ascii_scalar(raw);
    assert(vstd::utf8::pop_first_scalar(raw) =~= rest);
}

/// Where a string's content ends: behind characters that need no escape it ends where it would without them, and a quote ends
/// it; an escape is passed over with what it escapes, and a control character never stands in it.
pub proof fn lemma_content_ends_at_its_quote(bytes: Seq<u8>, at: int)
    requires
        0 <= at < bytes.len(),
    ensures
        bytes[at] == 0x22 ==> content_end(bytes, at) == Some(at),
        bytes[at] != 0x22 && bytes[at] != 0x5c && bytes[at] >= 0x20 ==> content_end(bytes, at) == content_end(bytes, at + 1),
        bytes[at] == 0x5c && at + 1 < bytes.len() && bytes[at + 1] != 0x75 ==> (content_end(bytes, at) == content_end(
            bytes,
            at + 2,
        )),
        bytes[at] == 0x5c && at + 6 <= bytes.len() && bytes[at + 1] == 0x75 ==> (content_end(bytes, at) == content_end(
            bytes,
            at + 6,
        )),
        bytes[at] < 0x20 ==> content_end(bytes, at) is None,
{
}

} // verus!
