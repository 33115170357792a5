//! The leading-comment index of a decoded document: which node carries which comment texts.

use std::collections::BTreeMap;

use vstd::prelude::*;

use crate::text::same_text;

verus! {

/// Who a document fact belongs to.
#[derive(Clone, Copy, Debug, PartialEq, Eq, Structural)]
pub enum FactOwner {
    /// A value node, by its handle.
    Node(u64),
    /// Something else.
    Elsewhere,
}

/// One entry of a fact's list payload.
#[derive(Debug)]
pub enum FactEntry {
    /// A text.
    Text(String),
    /// Something else.
    Opaque,
}

/// What a fact carries.
#[derive(Debug)]
pub enum FactPayload {
    /// A list.
    List(Vec<FactEntry>),
    /// Something else.
    Opaque,
}

/// One fact of a document.
#[derive(Debug)]
pub struct Fact {
    /// Who it belongs to.
    pub owner: FactOwner,
    /// The role it was attached under.
    pub role: String,
    /// What it carries.
    pub payload: FactPayload,
}

/// The texts among the first `upto` entries of a list.
pub open spec fn texts_before(entries: Seq<FactEntry>, upto: int) -> Seq<Seq<char>>
    decreases upto,
{
    if upto <= 0 || upto > entries.len() {
        seq![]
    } else {
        match entries[upto - 1] {
            FactEntry::Text(text) => texts_before(entries, upto - 1).push(text@),
            FactEntry::Opaque => texts_before(entries, upto - 1),
        }
    }
}

/// The node and comment texts that a fact names, for a fact of the role with at least one text.
pub open spec fn comment_fact(fact: Fact, role: Seq<char>) -> Option<(u64, Seq<Seq<char>>)> {
    match (fact.owner, fact.payload) {
        (FactOwner::Node(node), FactPayload::List(entries)) => {
            let texts = texts_before(entries@, entries.len() as int);
            if fact.role@ == role && texts.len() > 0 {
                Some((node, texts))
            } else {
                None
            }
        },
        _ => None,
    }
}

/// The comments of each node that has any, after the first `upto` facts: a later fact of a node takes the place of an
/// earlier one.
pub open spec fn comments_before(facts: Seq<Fact>, role: Seq<char>, upto: int) -> Map<u64, Seq<Seq<char>>>
    decreases upto,
{
    if upto <= 0 || upto > facts.len() {
        Map::empty()
    } else {
        match comment_fact(facts[upto - 1], role) {
            Some((node, texts)) => comments_before(facts, role, upto - 1).insert(node, texts),
            None => comments_before(facts, role, upto - 1),
        }
    }
}

/// What comment texts say.
pub open spec fn spoken(texts: Seq<String>) -> Seq<Seq<char>> {
    texts.map_values(|text: String| text@)
}

/// The texts of a list payload.
fn list_texts(entries: &Vec<FactEntry>) -> (texts: Vec<String>)
    ensures
        spoken(texts@) == texts_before(entries@, entries.len() as int),
{
    let mut texts: Vec<String> = Vec::new();
    let mut i: usize = 0;
    assert(spoken(texts@) =~= seq![]);
    while i < entries.len()
        invariant
            i <= entries.len(),
            spoken(texts@) == texts_before(entries@, i as int),
        decreases entries.len() - i,
    {
        match &entries[i] {
            FactEntry::Text(text) => {
                let ghost before = texts@;
                texts.push(text.clone());
                assert(spoken(texts@) =~= spoken(before).push(text@));
            }
            FactEntry::Opaque => {}
        }
        i += 1;
    }
    texts
}

/// Puts a node's comment texts into the index, in the place of any it had.
fn put_comments(index: &mut BTreeMap<u64, Vec<String>>, node: u64, texts: Vec<String>)
    ensures
        final(index)@ == old(index)@.insert(node, texts),
{
    broadcast use vstd::laws_cmp::group_laws_cmp;

    index.insert(node, texts);
}

/// Builds the leading-comment index of one document's facts: the comment texts of `role`, by node. A document without
/// such facts yields an empty index, and the encoder then writes no comment lines.
pub fn build_comment_index(facts: &Vec<Fact>, role: &str) -> (index: BTreeMap<u64, Vec<String>>)
    ensures
        index@.dom() == comments_before(facts@, role@, facts.len() as int).dom(),
        forall|node: u64| #[trigger] index@.contains_key(node) ==> spoken(index@[node]@) == comments_before(
            facts@,
            role@,
            facts.len() as int,
        )[node],
{
    let mut index: BTreeMap<u64, Vec<String>> = BTreeMap::new();
    let mut i: usize = 0;
    while i < facts.len()
        invariant
            i <= facts.len(),
            index@.dom() == comments_before(facts@, role@, i as int).dom(),
            forall|node: u64| #[trigger] index@.contains_key(node) ==> spoken(index@[node]@) == comments_before(
                facts@,
                role@,
                i as int,
            )[node],
        decreases facts.len() - i,
    {
        let fact = &facts[i];
        if let FactOwner::Node(node) = fact.owner {
            if same_text(fact.role.as_str(), role) {
                if let FactPayload::List(entries) = &fact.payload {
                    let texts = list_texts(entries);
                    if texts.len() > 0 {
                        assert(spoken(texts@).len() > 0);
                        put_comments(&mut index, node, texts);
                    }
                }
            }
        }
        i += 1;
    }
    index
}

} // verus!
