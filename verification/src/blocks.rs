//! The bridge from document text to the block tree: the markdown parser of
//! the `comrak` crate builds the tree, which is converted node for node into
//! the library's own `Node` type.

use crate::node::{Node, NodeV};
use vstd::prelude::*;

verus! {

#[verifier::external_type_specification]
#[verifier::external_body]
pub struct ExNodeValue(comrak::nodes::NodeValue);

/// The block tree that the markdown parser yields for a document's text: a
/// function of the text alone.
pub uninterp spec fn doc_tree_of(s: Seq<char>) -> NodeV;

/// Relies on comrak::nodes::NodeValue: each structural kind that the plan
/// dialect reads is told apart by its variant; every other kind carries only
/// its children and becomes a `Container`.
#[verifier::external_body]
fn make_node(v: &comrak::nodes::NodeValue, children: Vec<Node>) -> Node {
    match v {
        comrak::nodes::NodeValue::Heading(h) => Node::Heading { level: h.level, children },
        comrak::nodes::NodeValue::List(_) => Node::List { children },
        comrak::nodes::NodeValue::Item(_) => Node::Item { children },
        comrak::nodes::NodeValue::Paragraph => Node::Paragraph { children },
        comrak::nodes::NodeValue::Text(s) => Node::Text { content: s.to_string() },
        comrak::nodes::NodeValue::Code(c) => Node::Code { content: c.literal.clone() },
        comrak::nodes::NodeValue::LineBreak => Node::LineBreak,
        comrak::nodes::NodeValue::SoftBreak => Node::SoftBreak,
        _ => Node::Container { children },
    }
}

/// Relies on comrak::parse_document: deterministic, so the tree it yields is
/// a function of the text; its edge traversal rebuilds that tree bottom-up as
/// owned nodes, the document root coming out as the outermost `Container`.
#[verifier::external_body]
pub(crate) fn parse_doc_tree(doc: &str) -> (r: Node)
    ensures
        r@ == doc_tree_of(doc@),
{
    let arena = comrak::Arena::new();
    let root = comrak::parse_document(&arena, doc, &comrak::Options::default());
    let mut stack: Vec<Vec<Node>> = vec![Vec::new()];
    for edge in root.traverse() {
        match edge {
            comrak::arena_tree::NodeEdge::Start(_) => stack.push(Vec::new()),
            comrak::arena_tree::NodeEdge::End(n) => {
                let made = make_node(&n.data.borrow().value, stack.pop().unwrap());
                stack.last_mut().unwrap().push(made);
            },
        }
    }
    stack.pop().unwrap().pop().unwrap()
}

} // verus!
