use planner::date::Date;
use planner::error::PlanError;
use planner::node::Node;
use planner::plan::Plan;
use planner::tasks::TaskStatus;

fn text_node(s: &str) -> Node {
    Node::Text { content: String::from(s) }
}

fn heading(level: u8, s: &str) -> Node {
    Node::Heading { level, children: vec![text_node(s)] }
}

fn para(s: &str) -> Node {
    Node::Paragraph { children: vec![text_node(s)] }
}

fn doc(children: Vec<Node>) -> Node {
    Node::Container { children }
}

fn task_section() -> Node {
    Node::List {
        children: vec![Node::Item {
            children: vec![
                para("Personal"),
                Node::List {
                    children: vec![Node::Item { children: vec![text_node("[ ] Buy milk")] }],
                },
            ],
        }],
    }
}

fn schedule_section() -> Node {
    Node::List {
        children: vec![Node::Item {
            children: vec![
                para("Planned"),
                Node::List {
                    children: vec![Node::Item { children: vec![text_node("0900\tStandup")] }],
                },
            ],
        }],
    }
}

#[test]
fn scan_of_a_hand_built_tree_finds_all_sections() {
    let root = doc(vec![
        heading(1, "03/15/2024"),
        para("Friday"),
        heading(2, "Tasks"),
        task_section(),
        heading(2, "Schedule"),
        schedule_section(),
    ]);
    let plan = Plan::from_blocks(&root).unwrap();
    assert_eq!(plan.date(), Date::new(2024, 3, 15).unwrap());
    let tasks = plan.tasks().as_ref().unwrap();
    assert_eq!(tasks.categories()[0].name(), "Personal");
    assert_eq!(tasks.categories()[0].tasks()[0].status(), &TaskStatus::Incomplete);
    let schedule = plan.schedule().as_ref().unwrap();
    assert_eq!(schedule.planned().len(), 1);
}

#[test]
fn scan_requires_the_sections_in_order() {
    // Without a Tasks section the Schedule heading is never reached.
    let root = doc(vec![
        heading(1, "03/15/2024"),
        heading(2, "Schedule"),
        schedule_section(),
    ]);
    let plan = Plan::from_blocks(&root).unwrap();
    assert!(plan.tasks().is_none());
    assert!(plan.schedule().is_none());
}

#[test]
fn scan_skips_stray_blocks_and_unrelated_headings() {
    let root = doc(vec![
        para("Preamble"),
        heading(3, "03/99/9999"),
        heading(1, "03/15/2024"),
        para("Friday"),
        heading(2, "Diary"),
        para("Nothing yet"),
        heading(2, "Tasks"),
        para("Not a list"),
        task_section(),
    ]);
    let plan = Plan::from_blocks(&root).unwrap();
    assert_eq!(plan.date(), Date::new(2024, 3, 15).unwrap());
    assert!(plan.tasks().is_some());
    assert!(plan.schedule().is_none());
}

#[test]
fn scan_of_an_empty_tree_has_no_date() {
    let root = doc(vec![]);
    assert_eq!(Plan::from_blocks(&root).unwrap_err(), PlanError::DateMissingOrMalformed);
    let leaf = text_node("no blocks at all");
    assert_eq!(Plan::from_blocks(&leaf).unwrap_err(), PlanError::DateMissingOrMalformed);
}

#[test]
fn scan_takes_the_first_level_one_heading_as_the_date() {
    let root = doc(vec![
        heading(1, "03/15/2024"),
        heading(1, "04/16/2025"),
    ]);
    let plan = Plan::from_blocks(&root).unwrap();
    assert_eq!(plan.date(), Date::new(2024, 3, 15).unwrap());
}
