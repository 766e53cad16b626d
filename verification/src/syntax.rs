//! The syntax tree of an org file, as far as the journal looks at it.
use crate::text::same_text;
use vstd::prelude::*;
use vstd::string::*;

verus! {

/// A node of a syntax tree: what it is, where it stands, and the nodes below it.
pub struct SyntaxNode {
    pub kind: String,
    pub start_byte: usize,
    pub end_byte: usize,
    pub start_row: u32,
    pub end_row: u32,
    pub children: Vec<SyntaxNode>,
}

/// The first node of a kind.
pub open spec fn first_of_kind(nodes: Seq<SyntaxNode>, kind: Seq<char>) -> Option<SyntaxNode>
    decreases nodes.len(),
{
    if nodes.len() == 0 {
        None
    } else if nodes[0].kind@ == kind {
        Some(nodes[0])
    } else {
        first_of_kind(nodes.skip(1), kind)
    }
}

/// The last node of a kind.
pub open spec fn last_of_kind(nodes: Seq<SyntaxNode>, kind: Seq<char>) -> Option<SyntaxNode>
    decreases nodes.len(),
{
    if nodes.len() == 0 {
        None
    } else if nodes.last().kind@ == kind {
        Some(nodes.last())
    } else {
        last_of_kind(nodes.drop_last(), kind)
    }
}

/// A reference's node, if there is one.
pub open spec fn option_node(node: Option<&SyntaxNode>) -> Option<SyntaxNode> {
    match node {
        Some(node) => Some(*node),
        None => None,
    }
}

/// The first node of a kind. Of the nodes around a place, innermost first, it is the nearest.
pub fn find_first<'a>(nodes: &'a Vec<SyntaxNode>, kind: &str) -> (r: Option<&'a SyntaxNode>)
    ensures
        option_node(r) == first_of_kind(nodes@, kind@),
{
    let mut i: usize = 0;
    assert(nodes@.skip(0) == nodes@);
    while i < nodes.len()
        invariant
            i <= nodes@.len(),
            first_of_kind(nodes@, kind@) == first_of_kind(nodes@.skip(i as int), kind@),
        decreases nodes@.len() - i,
    {
        if same_text(nodes[i].kind.as_str(), kind) {
            return Some(&nodes[i]);
        }
        assert(nodes@.skip(i as int).skip(1) == nodes@.skip(i + 1));
        i += 1;
    }
    None
}

/// The last node of a kind.
pub fn find_last<'a>(nodes: &'a Vec<SyntaxNode>, kind: &str) -> (r: Option<&'a SyntaxNode>)
    ensures
        option_node(r) == last_of_kind(nodes@, kind@),
{
    let mut i: usize = nodes.len();
    assert(nodes@.take(i as int) == nodes@);
    while i > 0
        invariant
            i <= nodes@.len(),
            last_of_kind(nodes@, kind@) == last_of_kind(nodes@.take(i as int), kind@),
        decreases i,
    {
        assert(nodes@.take(i as int).last() == nodes@[i - 1]);
        if same_text(nodes[i - 1].kind.as_str(), kind) {
            return Some(&nodes[i - 1]);
        }
        assert(nodes@.take(i as int).drop_last() == nodes@.take(i - 1));
        i -= 1;
    }
    None
}

} // verus!
