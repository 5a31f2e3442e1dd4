//! The block tree that a plan document is read from, and the text collector
//! that flattens a subtree to plain text.

use crate::text::{trim, trim_spec};
use vstd::prelude::*;

verus! {

/// One node of the block tree: the structural kinds the plan dialect reads,
/// plus `Container` for every other kind, which only contributes its children.
#[derive(Debug)]
pub enum Node {
    Heading { level: u8, children: Vec<Node> },
    List { children: Vec<Node> },
    Item { children: Vec<Node> },
    Paragraph { children: Vec<Node> },
    Text { content: String },
    Code { content: String },
    LineBreak,
    SoftBreak,
    Container { children: Vec<Node> },
}

/// The mathematical shape of a `Node`.
pub enum NodeV {
    Heading { level: u8, children: Seq<NodeV> },
    List { children: Seq<NodeV> },
    Item { children: Seq<NodeV> },
    Paragraph { children: Seq<NodeV> },
    Text { content: Seq<char> },
    Code { content: Seq<char> },
    LineBreak,
    SoftBreak,
    Container { children: Seq<NodeV> },
}

/// The view of one node.
pub open spec fn node_view(n: Node) -> NodeV
    decreases n,
{
    match n {
        Node::Heading { level, children } => NodeV::Heading {
            level,
            children: nodes_view(children@),
        },
        Node::List { children } => NodeV::List { children: nodes_view(children@) },
        Node::Item { children } => NodeV::Item { children: nodes_view(children@) },
        Node::Paragraph { children } => NodeV::Paragraph { children: nodes_view(children@) },
        Node::Text { content } => NodeV::Text { content: content@ },
        Node::Code { content } => NodeV::Code { content: content@ },
        Node::LineBreak => NodeV::LineBreak,
        Node::SoftBreak => NodeV::SoftBreak,
        Node::Container { children } => NodeV::Container { children: nodes_view(children@) },
    }
}

/// The views of a sequence of nodes.
pub open spec fn nodes_view(s: Seq<Node>) -> Seq<NodeV>
    decreases s,
{
    if s.len() == 0 {
        Seq::empty()
    } else {
        seq![node_view(s[0])] + nodes_view(s.drop_first())
    }
}

impl View for Node {
    type V = NodeV;

    open spec fn view(&self) -> NodeV {
        node_view(*self)
    }
}

/// Length and elements of `nodes_view`.
pub proof fn lemma_nodes_view(s: Seq<Node>)
    ensures
        nodes_view(s).len() == s.len(),
        forall|i: int| 0 <= i < s.len() ==> nodes_view(s)[i] == node_view(#[trigger] s[i]),
    decreases s.len(),
{
    if s.len() > 0 {
        lemma_nodes_view(s.drop_first());
        assert forall|i: int| 0 <= i < s.len() implies nodes_view(s)[i] == node_view(
            #[trigger] s[i],
        ) by {
            if i > 0 {
                assert(nodes_view(s.drop_first())[i - 1] == node_view(s.drop_first()[i - 1]));
                assert(s.drop_first()[i - 1] == s[i]);
            }
        }
    }
}

/// The flattened text of one node: literal text verbatim, inline code in
/// backticks, breaks as one space, anything else the text of its children.
pub open spec fn text_of(n: NodeV) -> Seq<char>
    decreases n,
{
    match n {
        NodeV::Text { content } => content,
        NodeV::Code { content } => seq!['`'] + content + seq!['`'],
        NodeV::LineBreak => seq![' '],
        NodeV::SoftBreak => seq![' '],
        NodeV::Heading { children, .. } => texts_of(children),
        NodeV::List { children } => texts_of(children),
        NodeV::Item { children } => texts_of(children),
        NodeV::Paragraph { children } => texts_of(children),
        NodeV::Container { children } => texts_of(children),
    }
}

/// The concatenated text of a sequence of nodes.
pub open spec fn texts_of(s: Seq<NodeV>) -> Seq<char>
    decreases s,
{
    if s.len() == 0 {
        Seq::empty()
    } else {
        text_of(s[0]) + texts_of(s.drop_first())
    }
}

/// The children a node carries; leaves carry none.
pub open spec fn children_of(n: NodeV) -> Seq<NodeV> {
    match n {
        NodeV::Heading { children, .. } => children,
        NodeV::List { children } => children,
        NodeV::Item { children } => children,
        NodeV::Paragraph { children } => children,
        NodeV::Container { children } => children,
        NodeV::Text { .. } => Seq::empty(),
        NodeV::Code { .. } => Seq::empty(),
        NodeV::LineBreak => Seq::empty(),
        NodeV::SoftBreak => Seq::empty(),
    }
}

/// Borrows a node's child list, where it has one.
pub fn node_children(node: &Node) -> (r: Option<&Vec<Node>>)
    ensures
        match r {
            Some(v) => children_of(node@) == nodes_view(v@),
            None => children_of(node@) == Seq::<NodeV>::empty(),
        },
{
    match node {
        Node::Heading { children, .. } => Some(children),
        Node::List { children } => Some(children),
        Node::Item { children } => Some(children),
        Node::Paragraph { children } => Some(children),
        Node::Container { children } => Some(children),
        Node::Text { .. } => None,
        Node::Code { .. } => None,
        Node::LineBreak => None,
        Node::SoftBreak => None,
    }
}

/// The text that `get_node_text` returns: the flattened text, trimmed.
pub open spec fn node_text(n: NodeV) -> Seq<char> {
    trim_spec(text_of(n))
}

/// Appending one node's view extends the concatenated text at the end.
pub proof fn lemma_texts_of_snoc(s: Seq<NodeV>, v: NodeV)
    ensures
        texts_of(s.push(v)) == texts_of(s) + text_of(v),
    decreases s.len(),
{
    if s.len() == 0 {
        let p = s.push(v);
        assert(p[0] == v);
        assert(p.drop_first() =~= Seq::<NodeV>::empty());
        assert(texts_of(Seq::<NodeV>::empty()) == Seq::<char>::empty());
        assert(texts_of(p) == text_of(v) + Seq::<char>::empty());
        assert(texts_of(s) == Seq::<char>::empty());
        assert(texts_of(p) =~= texts_of(s) + text_of(v));
    } else {
        lemma_texts_of_snoc(s.drop_first(), v);
        assert(s.push(v).drop_first() =~= s.drop_first().push(v));
        assert(s.push(v)[0] == s[0]);
        assert(texts_of(s.push(v)) == text_of(s[0]) + texts_of(s.drop_first().push(v)));
        assert(texts_of(s.push(v)) =~= texts_of(s) + text_of(v));
    }
}

/// Views commute with appending a node.
pub proof fn lemma_nodes_view_snoc(s: Seq<Node>, n: Node)
    ensures
        nodes_view(s.push(n)) == nodes_view(s).push(node_view(n)),
{
    lemma_nodes_view(s.push(n));
    lemma_nodes_view(s);
    assert forall|i: int| 0 <= i < s.len() + 1 implies nodes_view(s.push(n))[i] == nodes_view(
        s,
    ).push(node_view(n))[i] by {
        if i < s.len() {
            assert(s.push(n)[i] == s[i]);
        } else {
            assert(s.push(n)[i] == n);
        }
    }
    assert(nodes_view(s.push(n)) =~= nodes_view(s).push(node_view(n)));
}

/// Collects text from `node` and all descendants, then appends it to `output`.
pub fn collect_text(node: &Node, output: &mut String)
    ensures
        final(output)@ == old(output)@ + text_of(node@),
    decreases *node,
{
    match node {
        Node::Text { content } => {
            output.append(content.as_str());
        },
        Node::Code { content } => {
            output.append("`");
            output.append(content.as_str());
            output.append("`");
            proof {
                reveal_strlit("`");
                assert(output@ =~= old(output)@ + text_of(node@));
            }
        },
        Node::LineBreak => {
            output.append(" ");
            proof {
                reveal_strlit(" ");
                assert(output@ =~= old(output)@ + text_of(node@));
            }
        },
        Node::SoftBreak => {
            output.append(" ");
            proof {
                reveal_strlit(" ");
                assert(output@ =~= old(output)@ + text_of(node@));
            }
        },
        Node::Heading { children, .. } => {
            collect_children(children, output);
        },
        Node::List { children } => {
            collect_children(children, output);
        },
        Node::Item { children } => {
            collect_children(children, output);
        },
        Node::Paragraph { children } => {
            collect_children(children, output);
        },
        Node::Container { children } => {
            collect_children(children, output);
        },
    }
}

/// Collects the text of each node in order.
fn collect_children(children: &Vec<Node>, output: &mut String)
    ensures
        final(output)@ == old(output)@ + texts_of(nodes_view(children@)),
    decreases children@,
{
    let n = children.len();
    let mut i: usize = 0;
    proof {
        assert(children@.subrange(0, 0) =~= Seq::<Node>::empty());
    }
    while i < n
        invariant
            0 <= i <= n,
            n == children@.len(),
            output@ == old(output)@ + texts_of(nodes_view(children@.subrange(0, i as int))),
        decreases n - i,
    {
        proof {
            assert(decreases_to!(children@ => children@[i as int]));
        }
        collect_text(&children[i], output);
        proof {
            let pre = children@.subrange(0, i as int);
            let cur = children@.subrange(0, i + 1);
            assert(cur =~= pre.push(children@[i as int]));
            lemma_nodes_view_snoc(pre, children@[i as int]);
            lemma_texts_of_snoc(nodes_view(pre), node_view(children@[i as int]));
        }
        i = i + 1;
    }
    proof {
        assert(children@.subrange(0, n as int) =~= children@);
    }
}

/// Flattened, trimmed text of `node` and its descendants.
pub fn get_node_text(node: &Node) -> (r: String)
    ensures
        r@ == node_text(node@),
{
    let mut collected = String::new();
    collect_text(node, &mut collected);
    trim(collected.as_str())
}

/// A structurally equal copy of one node.
pub fn copy_node(node: &Node) -> (r: Node)
    ensures
        r@ == node@,
    decreases *node,
{
    match node {
        Node::Heading { level, children } => Node::Heading {
            level: *level,
            children: copy_nodes(children),
        },
        Node::List { children } => Node::List { children: copy_nodes(children) },
        Node::Item { children } => Node::Item { children: copy_nodes(children) },
        Node::Paragraph { children } => Node::Paragraph { children: copy_nodes(children) },
        Node::Text { content } => Node::Text { content: content.clone() },
        Node::Code { content } => Node::Code { content: content.clone() },
        Node::LineBreak => Node::LineBreak,
        Node::SoftBreak => Node::SoftBreak,
        Node::Container { children } => Node::Container { children: copy_nodes(children) },
    }
}

/// Structurally equal copies of a node sequence.
pub fn copy_nodes(nodes: &Vec<Node>) -> (r: Vec<Node>)
    ensures
        nodes_view(r@) == nodes_view(nodes@),
    decreases nodes@,
{
    let n = nodes.len();
    let mut out: Vec<Node> = Vec::new();
    proof {
        assert(nodes@.subrange(0, 0) =~= Seq::<Node>::empty());
        assert(nodes_view(out@) =~= nodes_view(nodes@.subrange(0, 0)));
    }
    let mut i: usize = 0;
    while i < n
        invariant
            0 <= i <= n,
            n == nodes@.len(),
            nodes_view(out@) == nodes_view(nodes@.subrange(0, i as int)),
        decreases n - i,
    {
        proof {
            assert(decreases_to!(nodes@ => nodes@[i as int]));
        }
        let c = copy_node(&nodes[i]);
        proof {
            let pre = nodes@.subrange(0, i as int);
            let cur = nodes@.subrange(0, i + 1);
            assert(cur =~= pre.push(nodes@[i as int]));
            lemma_nodes_view_snoc(pre, nodes@[i as int]);
            lemma_nodes_view_snoc(out@, c);
        }
        out.push(c);
        i = i + 1;
    }
    proof {
        assert(nodes@.subrange(0, n as int) =~= nodes@);
    }
    out
}

} // verus!
