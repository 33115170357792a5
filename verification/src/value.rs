//! The value a codec encodes: a tree of scalars, arrays and objects, each node with the comments that lead it.

use vstd::prelude::*;
use vstd::utf8::{encode_utf8, valid_utf8};

verus! {

/// A number's canonical text.
pub enum NumberText {
    /// An integer, in the spelling it is written in.
    Integer(String),
    /// A decimal, in the pieces its rendering is made of: prefix, digits, suffix.
    Decimal(Vec<String>),
    /// A computed binary number, already rendered. Its text is a normalization of it.
    Float(String),
}

/// A value.
pub enum Value {
    /// `null`.
    Null,
    /// `true` or `false`.
    Bool(bool),
    /// A number.
    Number(NumberText),
    /// A string.
    Text(String),
    /// A scalar JSON has no spelling for, as the text that stands for it. The text needs no escape.
    Projected(String),
    /// An array.
    Array(Vec<Item>),
    /// An object, with its members in document order.
    Object(Vec<Member>),
    /// A value under a tag that JSON does not spell.
    Tagged(Box<Value>),
}

/// A value with the comments that lead it.
pub struct Item {
    /// The comments' texts.
    pub comments: Vec<String>,
    /// The value.
    pub value: Value,
}

/// An object member.
pub struct Member {
    /// The key.
    pub key: String,
    /// The value, with the comments that lead the member.
    pub item: Item,
}

/// A text's UTF-8 bytes.
pub open spec fn utf8(text: String) -> Seq<u8> {
    encode_utf8(text@)
}

/// A text's UTF-8 bytes.
pub fn bytes_of(text: &String) -> (bytes: &[u8])
    ensures
        bytes@ == utf8(*text),
        valid_utf8(bytes@),
{
    proof {
        vstd::utf8::encode_utf8_valid_utf8(text@);
    }
    text.as_str().as_bytes()
}

/// The concatenated bytes of the texts from `from` on.
pub open spec fn pieces_from(pieces: Seq<String>, from: int) -> Seq<u8>
    decreases pieces.len() - from,
{
    if from < 0 || from >= pieces.len() {
        seq![]
    } else {
        utf8(pieces[from]) + pieces_from(pieces, from + 1)
    }
}

/// A number's bytes.
pub open spec fn number_bytes(number: NumberText) -> Seq<u8> {
    match number {
        NumberText::Integer(text) => utf8(text),
        NumberText::Decimal(pieces) => pieces_from(pieces@, 0),
        NumberText::Float(text) => utf8(text),
    }
}

impl Value {
    /// The value without its tags.
    pub open spec fn bare(self) -> Value
        decreases self,
    {
        match self {
            Value::Tagged(inner) => inner.bare(),
            _ => self,
        }
    }

    /// The value without its tags, and whether it had any.
    pub fn untagged(&self) -> (bare: (&Value, bool))
        ensures
            *bare.0 == self.bare(),
            bare.1 == (self is Tagged),
        decreases self,
    {
        match self {
            Value::Tagged(inner) => {
                let (bare, _) = inner.untagged();
                (bare, true)
            }
            _ => (self, false),
        }
    }
}

/// Whether `left` comes before `right` in byte order.
pub open spec fn bytes_before(left: Seq<u8>, right: Seq<u8>) -> bool
    decreases left.len(),
{
    if right.len() == 0 {
        false
    } else if left.len() == 0 {
        true
    } else if left[0] == right[0] {
        bytes_before(left.skip(1), right.skip(1))
    } else {
        left[0] < right[0]
    }
}

proof fn lemma_bytes_before_is_total(left: Seq<u8>, right: Seq<u8>)
    ensures
        bytes_before(left, right) || bytes_before(right, left) || left == right,
        !(bytes_before(left, right) && bytes_before(right, left)),
        !bytes_before(left, left),
    decreases left.len(),
{
    if left.len() > 0 {
        lemma_bytes_before_is_total(left.skip(1), left.skip(1));
        if right.len() > 0 && left[0] == right[0] {
            lemma_bytes_before_is_total(left.skip(1), right.skip(1));
            if left.skip(1) == right.skip(1) {
                assert(left =~= seq![left[0]] + left.skip(1));
                assert(right =~= seq![right[0]] + right.skip(1));
            }
        }
    } else if right.len() == 0 {
        assert(left =~= right);
    }
}

proof fn lemma_bytes_before_is_transitive(a: Seq<u8>, b: Seq<u8>, c: Seq<u8>)
    requires
        bytes_before(a, b),
        bytes_before(b, c),
    ensures
        bytes_before(a, c),
    decreases a.len(),
{
    if a.len() > 0 && a[0] == b[0] && b[0] == c[0] {
        lemma_bytes_before_is_transitive(a.skip(1), b.skip(1), c.skip(1));
    }
}

/// Whether `left` comes before `right` in byte order.
fn is_before(left: &[u8], right: &[u8]) -> (before: bool)
    ensures
        before == bytes_before(left@, right@),
{
    let mut i: usize = 0;
    assert(left@.skip(0) =~= left@);
    assert(right@.skip(0) =~= right@);
    while i < left.len() && i < right.len() && left[i] == right[i]
        invariant
            i <= left.len(),
            i <= right.len(),
            bytes_before(left@, right@) == bytes_before(left@.skip(i as int), right@.skip(i as int)),
        decreases left.len() - i,
    {
        proof {
            assert(left@.skip(i as int)[0] == left@[i as int]);
            assert(right@.skip(i as int)[0] == right@[i as int]);
            assert(left@.skip(i as int).skip(1) =~= left@.skip(i + 1));
            assert(right@.skip(i as int).skip(1) =~= right@.skip(i + 1));
        }
        i += 1;
    }
    proof {
        if i < left.len() {
            assert(left@.skip(i as int)[0] == left@[i as int]);
        }
        if i < right.len() {
            assert(right@.skip(i as int)[0] == right@[i as int]);
        }
    }
    if i == right.len() {
        false
    } else if i == left.len() {
        true
    } else {
        left[i] < right[i]
    }
}

/// Whether member `i` is written before member `j` when keys are sorted: by the keys' bytes, and equal keys in document
/// order.
pub open spec fn member_first(members: Seq<Member>, i: int, j: int) -> bool {
    ||| bytes_before(utf8(members[i].key), utf8(members[j].key))
    ||| utf8(members[i].key) == utf8(members[j].key) && i < j
}

proof fn lemma_member_first_is_an_order(members: Seq<Member>, i: int, j: int, k: int)
    ensures
        !member_first(members, i, i),
        member_first(members, i, j) || member_first(members, j, i) || i == j,
        !(member_first(members, i, j) && member_first(members, j, i)),
        member_first(members, i, j) && member_first(members, j, k) ==> member_first(members, i, k),
{
    let (a, b, c) = (utf8(members[i].key), utf8(members[j].key), utf8(members[k].key));
    lemma_bytes_before_is_total(a, b);
    lemma_bytes_before_is_total(a, a);
    if bytes_before(a, b) && bytes_before(b, c) {
        lemma_bytes_before_is_transitive(a, b, c);
    }
}

/// Whether `order` lists the indices from `from` to `upto`, each once, in sorted-key order.
pub open spec fn sorts(order: Seq<usize>, members: Seq<Member>, from: int, upto: int) -> bool {
    &&& order.len() == upto - from
    &&& forall|a: int| 0 <= a < order.len() ==> from <= #[trigger] order[a] < upto
    &&& forall|a: int, b: int|
        0 <= a < b < order.len() ==> member_first(members, #[trigger] order[a] as int, #[trigger] order[b] as int)
    &&& forall|i: int| from <= i < upto ==> order.contains(#[trigger] (i as usize))
}

/// The order an object's members are written in: document order, or sorted by key.
pub open spec fn member_order(members: Seq<Member>, sort_keys: bool) -> Seq<usize> {
    if sort_keys {
        choose|order: Seq<usize>| sorts(order, members, 0, members.len() as int)
    } else {
        Seq::new(members.len(), |i: int| i as usize)
    }
}

/// Only one order sorts.
pub proof fn lemma_sorted_order_is_unique(left: Seq<usize>, right: Seq<usize>, members: Seq<Member>)
    requires
        sorts(left, members, 0, members.len() as int),
        sorts(right, members, 0, members.len() as int),
        members.len() <= usize::MAX,
    ensures
        left == right,
{
    assert forall|a: int| 0 <= a <= left.len() implies left.take(a) == #[trigger] right.take(a) by {
        lemma_sorted_prefixes_agree(left, right, members, a);
    }
    assert(left.take(left.len() as int) == right.take(left.len() as int));
    assert(left.take(left.len() as int) =~= left);
    assert(right.take(left.len() as int) =~= right);
}

proof fn lemma_sorted_prefixes_agree(left: Seq<usize>, right: Seq<usize>, members: Seq<Member>, upto: int)
    requires
        sorts(left, members, 0, members.len() as int),
        sorts(right, members, 0, members.len() as int),
        members.len() <= usize::MAX,
        0 <= upto <= left.len(),
    ensures
        left.take(upto) == right.take(upto),
    decreases upto,
{
    if upto > 0 {
        let at = upto - 1;
        lemma_sorted_prefixes_agree(left, right, members, at);
        let x = left[at];
        let y = right[at];
        if x != y {
            assert(right.contains((x as int) as usize));
            assert(left.contains((y as int) as usize));
            let c = choose|c: int| 0 <= c < right.len() && right[c] == x;
            let e = choose|e: int| 0 <= e < left.len() && left[e] == y;
            lemma_member_first_is_an_order(members, x as int, y as int, x as int);
            if c < at {
                assert(left.take(at)[c] == right.take(at)[c]);
                assert(member_first(members, left[c] as int, left[at] as int));
            }
            if e < at {
                assert(left.take(at)[e] == right.take(at)[e]);
                assert(member_first(members, right[e] as int, right[at] as int));
            }
            lemma_member_first_is_an_order(members, x as int, x as int, x as int);
            lemma_member_first_is_an_order(members, y as int, y as int, y as int);
            assert(c > at && e > at);
            assert(member_first(members, right[at] as int, right[c] as int));
            assert(member_first(members, left[at] as int, left[e] as int));
            assert(false);
        }
        assert(left.take(upto) =~= left.take(at).push(x));
        assert(right.take(upto) =~= right.take(at).push(y));
    }
}

/// Where index `k` belongs in a sorted order of smaller indices, looking from `at` on.
proof fn lemma_place_in_order(order: Seq<usize>, members: Seq<Member>, k: int, at: int) -> (place: int)
    requires
        0 <= k < members.len(),
        sorts(order, members, 0, k),
        0 <= at <= order.len(),
        forall|a: int| 0 <= a < at ==> member_first(members, #[trigger] order[a] as int, k),
    ensures
        at <= place <= order.len(),
        forall|a: int| 0 <= a < place ==> member_first(members, #[trigger] order[a] as int, k),
        forall|a: int| place <= a < order.len() ==> member_first(members, k, #[trigger] order[a] as int),
    decreases order.len() - at,
{
    if at == order.len() {
        at
    } else if member_first(members, order[at] as int, k) {
        lemma_place_in_order(order, members, k, at + 1)
    } else {
        lemma_member_first_is_an_order(members, order[at] as int, k, k);
        assert forall|a: int| at <= a < order.len() implies member_first(members, k, #[trigger] order[a] as int) by {
            lemma_member_first_is_an_order(members, k, order[at] as int, order[a] as int);
            if at < a {
                assert(member_first(members, order[at] as int, order[a] as int));
            }
        }
        at
    }
}

/// Some order sorts the first `upto` members.
proof fn lemma_some_order_sorts(members: Seq<Member>, upto: int) -> (order: Seq<usize>)
    requires
        0 <= upto <= members.len() <= usize::MAX,
    ensures
        sorts(order, members, 0, upto),
    decreases upto,
{
    if upto == 0 {
        seq![]
    } else {
        let k = upto - 1;
        let before = lemma_some_order_sorts(members, k);
        let place = lemma_place_in_order(before, members, k, 0);
        let order = before.insert(place, k as usize);
        assert forall|a: int, b: int| 0 <= a < b < order.len() implies member_first(
            members,
            #[trigger] order[a] as int,
            #[trigger] order[b] as int,
        ) by {
            let x = if a < place {
                a
            } else {
                a - 1
            };
            let y = if b < place {
                b
            } else {
                b - 1
            };
            if a != place {
                assert(order[a] == before[x]);
            }
            if b != place {
                assert(order[b] == before[y]);
            }
        }
        assert forall|i: int| 0 <= i < upto implies order.contains(#[trigger] (i as usize)) by {
            if i == k {
                assert(order[place] == k as usize);
            } else {
                assert(before.contains(i as usize));
                let at = choose|at: int| 0 <= at < before.len() && before[at] == i as usize;
                assert(order[if at < place {
                    at
                } else {
                    at + 1
                }] == i as usize);
            }
        }
        order
    }
}

/// The order an object's members are written in lists each of them once.
pub proof fn lemma_member_order(members: Seq<Member>, sort_keys: bool)
    requires
        members.len() <= usize::MAX,
    ensures
        member_order(members, sort_keys).len() == members.len(),
        forall|a: int|
            0 <= a < members.len() ==> (#[trigger] member_order(members, sort_keys)[a]) < members.len(),
        forall|i: int| 0 <= i < members.len() ==> member_order(members, sort_keys).contains(#[trigger] (i as usize)),
        sort_keys ==> sorts(member_order(members, sort_keys), members, 0, members.len() as int),
{
    if sort_keys {
        let order = lemma_some_order_sorts(members, members.len() as int);
    } else {
        assert forall|i: int| 0 <= i < members.len() implies member_order(members, sort_keys).contains(
            #[trigger] (i as usize),
        ) by {
            assert(member_order(members, sort_keys)[i] == i as usize);
        }
    }
}

/// Whether member `i` is written before member `j` when keys are sorted.
fn comes_first(members: &Vec<Member>, i: usize, j: usize) -> (first: bool)
    requires
        i < members.len(),
        j < members.len(),
    ensures
        first == member_first(members@, i as int, j as int),
{
    let left = bytes_of(&members[i].key);
    let right = bytes_of(&members[j].key);
    proof {
        lemma_bytes_before_is_total(left@, right@);
    }
    if is_before(left, right) {
        true
    } else {
        i < j && !is_before(right, left)
    }
}

/// Merges two adjacent sorted runs of indices.
fn merge_orders(members: &Vec<Member>, left: Vec<usize>, right: Vec<usize>, from: usize, middle: usize, upto: usize) -> (
merged: Vec<usize>)
    requires
        from <= middle <= upto <= members.len(),
        sorts(left@, members@, from as int, middle as int),
        sorts(right@, members@, middle as int, upto as int),
    ensures
        sorts(merged@, members@, from as int, upto as int),
{
    let mut merged: Vec<usize> = Vec::new();
    let mut i: usize = 0;
    let mut j: usize = 0;
    while i < left.len() || j < right.len()
        invariant
            from <= middle <= upto <= members.len(),
            sorts(left@, members@, from as int, middle as int),
            sorts(right@, members@, middle as int, upto as int),
            i <= left.len(),
            j <= right.len(),
            merged@.len() == i + j,
            forall|a: int| 0 <= a < merged@.len() ==> from <= #[trigger] merged@[a] < upto,
            forall|a: int, b: int|
                0 <= a < b < merged@.len() ==> member_first(
                    members@,
                    #[trigger] merged@[a] as int,
                    #[trigger] merged@[b] as int,
                ),
            forall|a: int, b: int|
                0 <= a < merged@.len() && i <= b < left.len() ==> member_first(
                    members@,
                    #[trigger] merged@[a] as int,
                    #[trigger] left@[b] as int,
                ),
            forall|a: int, b: int|
                0 <= a < merged@.len() && j <= b < right.len() ==> member_first(
                    members@,
                    #[trigger] merged@[a] as int,
                    #[trigger] right@[b] as int,
                ),
            forall|b: int| 0 <= b < i ==> merged@.contains(#[trigger] left@[b]),
            forall|b: int| 0 <= b < j ==> merged@.contains(#[trigger] right@[b]),
        decreases left.len() - i + (right.len() - j),
    {
        let ghost before = merged@;
        let take_left = if i == left.len() {
            false
        } else if j == right.len() {
            true
        } else {
            comes_first(members, left[i], right[j])
        };
        let next = if take_left {
            left[i]
        } else {
            right[j]
        };
        proof {
            assert forall|b: int| i + (if take_left { 1int } else { 0 }) <= b < left.len() implies member_first(
                members@,
                next as int,
                #[trigger] left@[b] as int,
            ) by {
                if !take_left {
                    lemma_member_first_is_an_order(members@, left@[i as int] as int, right@[j as int] as int, 0);
                    lemma_member_first_is_an_order(members@, next as int, left@[i as int] as int, left@[b] as int);
                    if b > i {
                        assert(member_first(members@, left@[i as int] as int, left@[b] as int));
                    }
                }
            }
            assert forall|b: int| j + (if take_left { 0int } else { 1 }) <= b < right.len() implies member_first(
                members@,
                next as int,
                #[trigger] right@[b] as int,
            ) by {
                if take_left {
                    lemma_member_first_is_an_order(members@, next as int, right@[j as int] as int, right@[b] as int);
                    if b > j {
                        assert(member_first(members@, right@[j as int] as int, right@[b] as int));
                    }
                }
            }
        }
        merged.push(next);
        proof {
            assert(merged@[before.len() as int] == next);
            assert forall|x: usize| before.contains(x) implies merged@.contains(x) by {
                let at = choose|at: int| 0 <= at < before.len() && before[at] == x;
                assert(merged@[at] == x);
            }
        }
        if take_left {
            i += 1;
        } else {
            j += 1;
        }
    }
    proof {
        assert forall|index: int| from <= index < upto implies merged@.contains(#[trigger] (index as usize)) by {
            if index < middle {
                assert(left@.contains(index as usize));
            } else {
                assert(right@.contains(index as usize));
            }
        }
    }
    merged
}

/// The indices from `from` to `upto` in sorted-key order.
fn sort_range(members: &Vec<Member>, from: usize, upto: usize) -> (order: Vec<usize>)
    requires
        from <= upto <= members.len(),
    ensures
        sorts(order@, members@, from as int, upto as int),
    decreases upto - from,
{
    if upto - from <= 1 {
        let mut order: Vec<usize> = Vec::new();
        if upto > from {
            order.push(from);
            assert(order@[0] == from);
        }
        return order;
    }
    let middle = from + (upto - from) / 2;
    let left = sort_range(members, from, middle);
    let right = sort_range(members, middle, upto);
    merge_orders(members, left, right, from, middle, upto)
}

/// The order that writes an object's members sorted by their keys' bytes, equal keys in document order.
pub fn build_object_order(members: &Vec<Member>) -> (order: Vec<usize>)
    ensures
        sorts(order@, members@, 0, members.len() as int),
        order@ == member_order(members@, true),
{
    let order = sort_range(members, 0, members.len());
    proof {
        lemma_sorted_order_is_unique(order@, member_order(members@, true), members@);
    }
    order
}

} // verus!
