//! Sections of a plan document: a level-2 heading together with the sibling
//! blocks that follow it, up to the next heading of level one or two.
//! Lower-level headings do not start a new section; they land in the
//! contents like any other block.

use crate::node::{
    copy_node, get_node_text, lemma_nodes_view, lemma_nodes_view_snoc, node_text, node_view,
    nodes_view, Node, NodeV,
};
use vstd::prelude::*;

verus! {

/// The nodes that comprise one section of the plan.
#[derive(Debug)]
pub struct PlanSection {
    /// The node that represents the section heading.
    pub heading: Node,
    /// The nodes that represent the contents of the section.
    pub contents: Vec<Node>,
}

/// The mathematical shape of a `PlanSection`.
#[verifier::ext_equal]
pub struct SectionV {
    pub heading: NodeV,
    pub contents: Seq<NodeV>,
}

impl View for PlanSection {
    type V = SectionV;

    open spec fn view(&self) -> SectionV {
        SectionV { heading: self.heading@, contents: nodes_view(self.contents@) }
    }
}

/// The views of a sequence of sections.
pub open spec fn sections_view(s: Seq<PlanSection>) -> Seq<SectionV> {
    s.map_values(|x: PlanSection| x@)
}

/// Whether a node ends the running section: a heading of level one or two.
pub open spec fn is_section_boundary(n: NodeV) -> bool {
    match n {
        NodeV::Heading { level, .. } => level <= 2,
        _ => false,
    }
}

/// The contents that start at position `j`: everything up to the next
/// section boundary or the end.
pub open spec fn contents_from(nodes: Seq<NodeV>, j: int) -> Seq<NodeV>
    decreases nodes.len() - j,
{
    if j < 0 || j >= nodes.len() {
        Seq::empty()
    } else if is_section_boundary(nodes[j]) {
        Seq::empty()
    } else {
        seq![nodes[j]] + contents_from(nodes, j + 1)
    }
}

/// The section that starts at position `i`, where a level-2 heading stands
/// there; `None` otherwise.
pub open spec fn section_at(nodes: Seq<NodeV>, i: int) -> Option<SectionV> {
    if 0 <= i < nodes.len() {
        match nodes[i] {
            NodeV::Heading { level, .. } => {
                if level == 2 {
                    Some(SectionV { heading: nodes[i], contents: contents_from(nodes, i + 1) })
                } else {
                    None
                }
            },
            _ => None,
        }
    } else {
        None
    }
}

/// The sections that start at or after position `i`, in order.
pub open spec fn sections_from(nodes: Seq<NodeV>, i: int) -> Seq<SectionV>
    decreases nodes.len() - i,
{
    if i < 0 || i >= nodes.len() {
        Seq::empty()
    } else {
        (match section_at(nodes, i) {
            Some(s) => seq![s],
            None => Seq::<SectionV>::empty(),
        }) + sections_from(nodes, i + 1)
    }
}

/// All the sections of a block sequence, in order.
pub open spec fn sections_of(nodes: Seq<NodeV>) -> Seq<SectionV> {
    sections_from(nodes, 0)
}

/// The section text: each content node's text, joined with single spaces.
pub open spec fn section_text(s: SectionV) -> Seq<char> {
    if s.contents.len() == 0 {
        Seq::empty()
    } else {
        node_text(s.contents[0]) + joined_rest(s.contents.drop_first())
    }
}

/// A space and the node's text, for every node.
pub open spec fn joined_rest(nodes: Seq<NodeV>) -> Seq<char>
    decreases nodes.len(),
{
    if nodes.len() == 0 {
        Seq::empty()
    } else {
        " "@ + node_text(nodes[0]) + joined_rest(nodes.drop_first())
    }
}

/// The contents reach exactly to the next boundary.
proof fn lemma_contents_span(nodes: Seq<NodeV>, a: int, j: int)
    requires
        0 <= a <= j <= nodes.len(),
        forall|k: int| a <= k < j ==> !is_section_boundary(#[trigger] nodes[k]),
        j < nodes.len() ==> is_section_boundary(nodes[j]),
    ensures
        contents_from(nodes, a) == nodes.subrange(a, j),
    decreases j - a,
{
    if a == j {
        assert(contents_from(nodes, a) =~= nodes.subrange(a, j));
    } else {
        lemma_contents_span(nodes, a + 1, j);
        assert(contents_from(nodes, a) == seq![nodes[a]] + contents_from(nodes, a + 1));
        assert(seq![nodes[a]] + nodes.subrange(a + 1, j) =~= nodes.subrange(a, j));
    }
}

impl PlanSection {
    /// The section starting at position `i` of the top-level blocks, if a
    /// level-2 heading stands there.
    pub fn from_node(nodes: &Vec<Node>, i: usize) -> (r: Option<PlanSection>)
        requires
            i < nodes@.len(),
        ensures
            match r {
                Some(s) => section_at(nodes_view(nodes@), i as int) == Some(s@),
                None => section_at(nodes_view(nodes@), i as int) is None,
            },
    {
        let ghost all = nodes_view(nodes@);
        proof {
            lemma_nodes_view(nodes@);
        }
        let n = nodes.len();
        let level: u8 = match &nodes[i] {
            Node::Heading { level, .. } => *level,
            _ => {
                return None;
            },
        };
        if level != 2 {
            return None;
        }
        let heading = copy_node(&nodes[i]);
        let mut j: usize = i + 1;
        while j < n && !boundary(&nodes[j])
            invariant
                i + 1 <= j <= n,
                n == nodes@.len(),
                all == nodes_view(nodes@),
                all.len() == n,
                forall|k: int| 0 <= k < n ==> all[k] == node_view(#[trigger] nodes@[k]),
                forall|k: int| i + 1 <= k < j ==> !is_section_boundary(#[trigger] all[k]),
            decreases n - j,
        {
            j = j + 1;
        }
        proof {
            lemma_contents_span(all, i + 1, j as int);
        }
        let mut contents: Vec<Node> = Vec::new();
        let mut k: usize = i + 1;
        proof {
            assert(nodes_view(contents@) =~= all.subrange(i + 1, i + 1));
        }
        while k < j
            invariant
                i + 1 <= k <= j <= n,
                n == nodes@.len(),
                all == nodes_view(nodes@),
                all.len() == n,
                forall|m: int| 0 <= m < n ==> all[m] == node_view(#[trigger] nodes@[m]),
                nodes_view(contents@) == all.subrange(i + 1, k as int),
            decreases j - k,
        {
            let c = copy_node(&nodes[k]);
            proof {
                lemma_nodes_view_snoc(contents@, c);
                assert(nodes_view(contents@).push(c@) =~= all.subrange(i + 1, k + 1));
            }
            contents.push(c);
            k = k + 1;
        }
        let section = PlanSection { heading, contents };
        proof {
            assert(section@ =~= (SectionV {
                heading: all[i as int],
                contents: contents_from(all, i + 1),
            }));
        }
        Some(section)
    }

    /// The section's flattened text: its content nodes' texts joined with
    /// single spaces.
    pub fn get_text(&self) -> (r: String)
        ensures
            r@ == section_text(self@),
    {
        let ghost all = nodes_view(self.contents@);
        proof {
            lemma_nodes_view(self.contents@);
        }
        let n = self.contents.len();
        let mut out = String::new();
        if n == 0 {
            return out;
        }
        let first = get_node_text(&self.contents[0]);
        out.append(first.as_str());
        let mut i: usize = 1;
        proof {
            assert(all.drop_first().subrange(0, 0) =~= Seq::<NodeV>::empty());
            assert(out@ + joined_rest(all.subrange(i as int, n as int)) =~= node_text(all[0])
                + joined_rest(all.drop_first()));
            assert(all.subrange(1, n as int) =~= all.drop_first());
        }
        while i < n
            invariant
                1 <= i <= n,
                n == self.contents@.len(),
                all == nodes_view(self.contents@),
                all.len() == n,
                forall|k: int| 0 <= k < n ==> all[k] == node_view(#[trigger] self.contents@[k]),
                out@ + joined_rest(all.subrange(i as int, n as int)) == node_text(all[0])
                    + joined_rest(all.drop_first()),
            decreases n - i,
        {
            let ghost sfx = all.subrange(i as int, n as int);
            proof {
                assert(sfx[0] == all[i as int]);
                assert(sfx.drop_first() =~= all.subrange(i + 1, n as int));
            }
            out.append(" ");
            let text = get_node_text(&self.contents[i]);
            out.append(text.as_str());
            proof {
                assert(out@ + joined_rest(sfx.drop_first()) =~= node_text(all[0]) + joined_rest(
                    all.drop_first(),
                ));
            }
            i = i + 1;
        }
        proof {
            assert(all.subrange(n as int, n as int) =~= Seq::<NodeV>::empty());
            assert(out@ + Seq::<char>::empty() =~= out@);
        }
        out
    }
}

/// Whether this node ends the running section, executable form.
fn boundary(node: &Node) -> (r: bool)
    ensures
        r == is_section_boundary(node@),
{
    match node {
        Node::Heading { level, .. } => *level <= 2,
        _ => false,
    }
}

/// All the sections of the top-level blocks, in order.
pub fn parse_sections(nodes: &Vec<Node>) -> (r: Vec<PlanSection>)
    ensures
        sections_view(r@) == sections_of(nodes_view(nodes@)),
{
    let ghost all = nodes_view(nodes@);
    proof {
        lemma_nodes_view(nodes@);
    }
    let n = nodes.len();
    let mut out: Vec<PlanSection> = Vec::new();
    let mut i: usize = 0;
    proof {
        assert(sections_view(out@) + sections_from(all, 0) =~= sections_of(all));
    }
    while i < n
        invariant
            0 <= i <= n,
            n == nodes@.len(),
            all == nodes_view(nodes@),
            all.len() == n,
            sections_view(out@) + sections_from(all, i as int) == sections_of(all),
        decreases n - i,
    {
        match PlanSection::from_node(nodes, i) {
            Some(section) => {
                proof {
                    assert(sections_view(out@.push(section)) =~= sections_view(out@).push(
                        section@,
                    ));
                    assert(sections_view(out@).push(section@) + sections_from(all, i + 1)
                        =~= sections_view(out@) + sections_from(all, i as int));
                }
                out.push(section);
            },
            None => {
                proof {
                    assert(sections_from(all, i as int) == sections_from(all, i + 1));
                }
            },
        }
        i = i + 1;
    }
    proof {
        assert(sections_from(all, n as int) == Seq::<SectionV>::empty());
        assert(sections_view(out@) + Seq::<SectionV>::empty() =~= sections_view(out@));
    }
    out
}

} // verus!
