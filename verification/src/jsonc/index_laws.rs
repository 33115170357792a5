//! Which comments a document's facts give to a node.

use vstd::prelude::*;

use crate::jsonc::index::{comment_fact, comments_before, texts_before, Fact, FactEntry, FactOwner, FactPayload};

verus! {

/// What an entry says, if it is a text.
pub open spec fn said(entry: FactEntry) -> Seq<Seq<char>> {
    match entry {
        FactEntry::Text(text) => seq![text@],
        FactEntry::Opaque => seq![],
    }
}

/// The texts of a list are what its entries say, the first one first: what is no text says nothing.
pub proof fn lemma_texts_are_what_the_entries_say(entries: Seq<FactEntry>)
    ensures
        entries.len() == 0 ==> texts_before(entries, 0).len() == 0,
        entries.len() > 0 ==> texts_before(entries, entries.len() as int) == said(entries[0]) + texts_before(
            entries.skip(1),
            entries.len() - 1,
        ),
{
    if entries.len() > 0 {
        lemma_texts_up_to(entries, entries.len() as int);
    }
}

proof fn lemma_texts_up_to(entries: Seq<FactEntry>, upto: int)
    requires
        1 <= upto <= entries.len(),
    ensures
        texts_before(entries, upto) == said(entries[0]) + texts_before(entries.skip(1), upto - 1),
    decreases upto,
{
    let rest = entries.skip(1);
    if upto == 1 {
        assert(texts_before(entries, 0) =~= seq![]);
        assert(texts_before(rest, 0) =~= seq![]);
        assert(texts_before(entries, 1) =~= said(entries[0]));
    } else {
        lemma_texts_up_to(entries, upto - 1);
        assert(rest[upto - 2] == entries[upto - 1]);
        assert(texts_before(entries, upto) =~= said(entries[0]) + texts_before(rest, upto - 1));
    }
}

/// Whether a fact gives comments to `node`: it is the node's own, of the role asked for, and a list with a text in it.
pub open spec fn speaks_of(fact: Fact, role: Seq<char>, node: u64) -> bool {
    &&& fact.owner == FactOwner::Node(node)
    &&& fact.role@ == role
    &&& fact.payload matches FactPayload::List(entries) && exists|i: int|
        0 <= i < entries@.len() && #[trigger] entries@[i] is Text
}

proof fn lemma_some_text_is_said(entries: Seq<FactEntry>, upto: int)
    requires
        0 <= upto <= entries.len(),
    ensures
        texts_before(entries, upto).len() > 0 <==> exists|i: int| 0 <= i < upto && #[trigger] entries[i] is Text,
    decreases upto,
{
    if upto > 0 {
        lemma_some_text_is_said(entries, upto - 1);
        if entries[upto - 1] is Text {
            assert(texts_before(entries, upto).len() > 0);
        }
    }
}

proof fn lemma_fact_speaks(fact: Fact, role: Seq<char>, node: u64)
    ensures
        speaks_of(fact, role, node) <==> (comment_fact(fact, role) matches Some((owner, _)) && owner == node),
{
    if let FactPayload::List(entries) = fact.payload {
        lemma_some_text_is_said(entries@, entries@.len() as int);
    }
}

/// A node has comments where some fact gives it any, and they are the texts of the last such fact.
pub proof fn lemma_the_last_fact_of_a_node_speaks(facts: Seq<Fact>, role: Seq<char>, node: u64, last: int)
    requires
        0 <= last < facts.len(),
        speaks_of(facts[last], role, node),
        forall|i: int| last < i < facts.len() ==> !speaks_of(#[trigger] facts[i], role, node),
    ensures
        ({
            let index = comments_before(facts, role, facts.len() as int);
            &&& index.contains_key(node)
            &&& facts[last].payload matches FactPayload::List(entries) && index[node] == texts_before(
                entries@,
                entries@.len() as int,
            )
        }),
{
    lemma_last_fact_up_to(facts, role, node, last, facts.len() as int);
}

proof fn lemma_last_fact_up_to(facts: Seq<Fact>, role: Seq<char>, node: u64, last: int, upto: int)
    requires
        0 <= last < upto <= facts.len(),
        speaks_of(facts[last], role, node),
        forall|i: int| last < i < upto ==> !speaks_of(#[trigger] facts[i], role, node),
    ensures
        ({
            let index = comments_before(facts, role, upto);
            &&& index.contains_key(node)
            &&& facts[last].payload matches FactPayload::List(entries) && index[node] == texts_before(
                entries@,
                entries@.len() as int,
            )
        }),
    decreases upto,
{
    lemma_fact_speaks(facts[upto - 1], role, node);
    if last < upto - 1 {
        assert(!speaks_of(facts[upto - 1], role, node));
        lemma_last_fact_up_to(facts, role, node, last, upto - 1);
    }
}

/// A node that no fact gives comments to has none.
pub proof fn lemma_no_fact_no_comments(facts: Seq<Fact>, role: Seq<char>, node: u64, upto: int)
    requires
        0 <= upto <= facts.len(),
        forall|i: int| 0 <= i < upto ==> !speaks_of(#[trigger] facts[i], role, node),
    ensures
        !comments_before(facts, role, upto).contains_key(node),
    decreases upto,
{
    if upto > 0 {
        lemma_fact_speaks(facts[upto - 1], role, node);
        assert(!speaks_of(facts[upto - 1], role, node));
        lemma_no_fact_no_comments(facts, role, node, upto - 1);
    }
}

} // verus!
