use planner::node::{get_node_text, Node};
use planner::sections::{parse_sections, PlanSection};

/// The block tree of a document with two level-2 sections, the second of
/// which holds one paragraph of text.
fn test_doc_nodes() -> Vec<Node> {
    vec![
        Node::Heading {
            level: 2,
            children: vec![Node::Text { content: String::from("Section 1") }],
        },
        Node::Heading {
            level: 2,
            children: vec![Node::Text { content: String::from("Section 2") }],
        },
        Node::Paragraph {
            children: vec![Node::Text { content: String::from("This is some text here.") }],
        },
    ]
}

#[test]
fn section_length_is_accurate() {
    let nodes = test_doc_nodes();
    let sections = parse_sections(&nodes);

    assert_eq!(sections.len(), 2)
}

#[test]
fn section_headings_are_accurate() {
    let nodes = test_doc_nodes();
    let sections = parse_sections(&nodes);

    let section_1 = sections.first().unwrap();
    let section_2 = sections.last().unwrap();

    assert_eq!(get_node_text(&section_1.heading), "Section 1");
    assert_eq!(get_node_text(&section_2.heading), "Section 2");
}

#[test]
fn section_text_is_accurate() {
    let nodes = test_doc_nodes();
    let sections = parse_sections(&nodes);

    let section_1 = sections.first().unwrap();
    let section_2 = sections.last().unwrap();

    let text_1 = section_1.get_text();
    let text_2 = section_2.get_text();

    assert_eq!(text_1, "");
    assert_eq!(text_2, "This is some text here.");
}

#[test]
fn collected_text_wraps_code_and_spaces_breaks() {
    let node = Node::Paragraph {
        children: vec![
            Node::Text { content: String::from("run") },
            Node::LineBreak,
            Node::Code { content: String::from("make") },
            Node::SoftBreak,
            Node::Container {
                children: vec![Node::Text { content: String::from("twice ") }],
            },
        ],
    };
    assert_eq!(get_node_text(&node), "run `make` twice");
}

#[test]
fn lower_level_headings_do_not_start_sections() {
    let nodes = vec![
        Node::Heading {
            level: 2,
            children: vec![Node::Text { content: String::from("Top") }],
        },
        Node::Heading {
            level: 3,
            children: vec![Node::Text { content: String::from("Sub") }],
        },
        Node::Paragraph { children: vec![Node::Text { content: String::from("Body") }] },
        Node::Heading {
            level: 1,
            children: vec![Node::Text { content: String::from("Stop") }],
        },
        Node::Paragraph { children: vec![Node::Text { content: String::from("After") }] },
    ];
    let sections = parse_sections(&nodes);
    assert_eq!(sections.len(), 1);
    assert_eq!(sections[0].contents.len(), 2);
    assert_eq!(sections[0].get_text(), "Sub Body");

    let from_mid = PlanSection::from_node(&nodes, 1);
    assert!(from_mid.is_none());
}
