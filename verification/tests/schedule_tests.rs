use planner::error::PlanError;
use planner::node::Node;
use planner::schedule::parse_schedule;
use planner::time::Time;

fn text_node(s: &str) -> Node {
    Node::Text { content: String::from(s) }
}

fn label_item(label: &str, event_texts: &[&str]) -> Node {
    let mut events: Vec<Node> = Vec::new();
    for t in event_texts {
        events.push(Node::Item { children: vec![text_node(t)] });
    }
    Node::Item {
        children: vec![
            Node::Paragraph { children: vec![text_node(label)] },
            Node::List { children: events },
        ],
    }
}

#[test]
fn event_with_valid_time_parses() {
    let list = Node::List { children: vec![label_item("Planned", &["0900\tStandup"])] };
    let schedule = parse_schedule(&list).unwrap();
    assert_eq!(schedule.planned().len(), 1);
    assert_eq!(schedule.planned()[0].start(), &Time { hour: 9, minute: 0 });
    assert_eq!(schedule.planned()[0].description(), "Standup");
    assert_eq!(schedule.actual().len(), 0);
}

#[test]
fn bad_time_drops_only_that_event() {
    let list = Node::List {
        children: vec![label_item("Planned", &["badtime\tStandup", "1130\tLunch"])],
    };
    let schedule = parse_schedule(&list).unwrap();
    assert_eq!(schedule.planned().len(), 1);
    assert_eq!(schedule.planned()[0].start(), &Time { hour: 11, minute: 30 });
    assert_eq!(schedule.planned()[0].description(), "Lunch");
}

#[test]
fn missing_description_drops_the_event() {
    let list = Node::List { children: vec![label_item("Planned", &["0900", "0930\tReview"])] };
    let schedule = parse_schedule(&list).unwrap();
    assert_eq!(schedule.planned().len(), 1);
    assert_eq!(schedule.planned()[0].description(), "Review");
}

#[test]
fn unknown_label_fails_the_whole_parse() {
    let list = Node::List {
        children: vec![
            label_item("Planned", &["0900\tStandup"]),
            label_item("Someday", &["1000\tDream"]),
        ],
    };
    let err = parse_schedule(&list).unwrap_err();
    assert_eq!(err, PlanError::ScheduleLabelMismatch { text: String::from("Someday") });
}

#[test]
fn labels_are_case_insensitive_and_events_accumulate() {
    let list = Node::List {
        children: vec![
            label_item("PLANNED", &["0900\tStandup"]),
            label_item("actual", &["0905\tStandup"]),
            label_item("Planned", &["1700\tWrap-up"]),
        ],
    };
    let schedule = parse_schedule(&list).unwrap();
    assert_eq!(schedule.planned().len(), 2);
    assert_eq!(schedule.actual().len(), 1);
    assert_eq!(schedule.planned()[1].description(), "Wrap-up");
}

#[test]
fn unexpected_children_are_skipped() {
    let list = Node::List {
        children: vec![
            text_node("stray"),
            Node::Item {
                children: vec![
                    text_node("stray inside item"),
                    Node::Paragraph { children: vec![text_node("Actual")] },
                    Node::List { children: vec![Node::Item { children: vec![text_node("0800\tGym")] }] },
                ],
            },
        ],
    };
    let schedule = parse_schedule(&list).unwrap();
    assert_eq!(schedule.planned().len(), 0);
    assert_eq!(schedule.actual().len(), 1);
    assert_eq!(schedule.actual()[0].description(), "Gym");
}

#[test]
fn time_parsing_accepts_only_padded_valid_times() {
    assert_eq!(Time::parse_hhmm("0900"), Some(Time { hour: 9, minute: 0 }));
    assert_eq!(Time::parse_hhmm("2359"), Some(Time { hour: 23, minute: 59 }));
    assert_eq!(Time::parse_hhmm("2400"), None);
    assert_eq!(Time::parse_hhmm("0960"), None);
    assert_eq!(Time::parse_hhmm("900"), None);
    assert_eq!(Time::parse_hhmm("09000"), None);
    assert_eq!(Time::parse_hhmm("09:0"), None);
    assert_eq!(Time::parse_hhmm(""), None);
}

#[test]
fn time_renders_zero_padded() {
    let t = Time::new(7, 5).unwrap();
    assert_eq!(t.to_hhmm(), "0705");
    assert_eq!(Time::parse_hhmm(&t.to_hhmm()), Some(t));
    assert_eq!(Time::new(24, 0), None);
    assert_eq!(Time::new(10, 60), None);
}

#[test]
fn tab_separated_pieces_skip_empty_ones() {
    let list = Node::List { children: vec![label_item("Planned", &["\t0900\t\tStandup\textra"])] };
    let schedule = parse_schedule(&list).unwrap();
    assert_eq!(schedule.planned().len(), 1);
    assert_eq!(schedule.planned()[0].start(), &Time { hour: 9, minute: 0 });
    assert_eq!(schedule.planned()[0].description(), "Standup");
}
