use planner::node::Node;
use planner::tasks::{parse_task_list, TaskStatus};

fn text_node(s: &str) -> Node {
    Node::Text { content: String::from(s) }
}

fn para(s: &str) -> Node {
    Node::Paragraph { children: vec![text_node(s)] }
}

fn task_item(s: &str) -> Node {
    Node::Item { children: vec![text_node(s)] }
}

#[test]
fn category_without_tasks_is_valid() {
    let list = Node::List { children: vec![Node::Item { children: vec![para("Chores")] }] };
    let tasks = parse_task_list(&list).unwrap();
    assert_eq!(tasks.categories().len(), 1);
    assert_eq!(tasks.categories()[0].name(), "Chores");
    assert_eq!(tasks.categories()[0].tasks().len(), 0);
}

#[test]
fn category_name_concatenates_paragraphs_without_separator() {
    let list = Node::List {
        children: vec![Node::Item { children: vec![para("Abc"), para("Def")] }],
    };
    let tasks = parse_task_list(&list).unwrap();
    assert_eq!(tasks.categories()[0].name(), "AbcDef");
}

#[test]
fn task_markers_decide_status_and_are_stripped() {
    let list = Node::List {
        children: vec![Node::Item {
            children: vec![
                para("Work"),
                Node::List {
                    children: vec![
                        task_item("[x] done"),
                        task_item("[ ] open"),
                        task_item("no marker"),
                        task_item("[X] shouted"),
                    ],
                },
            ],
        }],
    };
    let tasks = parse_task_list(&list).unwrap();
    let work = &tasks.categories()[0];
    assert_eq!(work.tasks().len(), 4);
    assert_eq!(work.tasks()[0].description(), "done");
    assert_eq!(work.tasks()[0].status(), &TaskStatus::Complete);
    assert_eq!(work.tasks()[1].description(), "open");
    assert_eq!(work.tasks()[1].status(), &TaskStatus::Incomplete);
    assert_eq!(work.tasks()[2].description(), "no marker");
    assert_eq!(work.tasks()[2].status(), &TaskStatus::Incomplete);
    // The complete marker is lower-case only; anything else is an
    // incomplete task whose text keeps its prefix.
    assert_eq!(work.tasks()[3].description(), "[X] shouted");
    assert_eq!(work.tasks()[3].status(), &TaskStatus::Incomplete);
}

#[test]
fn repeated_markers_are_stripped_in_order() {
    let list = Node::List {
        children: vec![Node::Item {
            children: vec![
                para("Quirks"),
                Node::List {
                    children: vec![task_item("[x][x] twice"), task_item("[ ] [x] spaced")],
                },
            ],
        }],
    };
    let tasks = parse_task_list(&list).unwrap();
    let quirks = &tasks.categories()[0];
    assert_eq!(quirks.tasks()[0].description(), "twice");
    assert_eq!(quirks.tasks()[0].status(), &TaskStatus::Complete);
    // Only marker repetitions at the very front are stripped: after the
    // first `[ ]` a space stops the stripping.
    assert_eq!(quirks.tasks()[1].description(), "[x] spaced");
    assert_eq!(quirks.tasks()[1].status(), &TaskStatus::Incomplete);
}

#[test]
fn non_item_children_of_the_nested_list_are_skipped() {
    let list = Node::List {
        children: vec![Node::Item {
            children: vec![
                para("Mixed"),
                Node::List {
                    children: vec![text_node("stray"), task_item("[ ] kept")],
                },
            ],
        }],
    };
    let tasks = parse_task_list(&list).unwrap();
    let mixed = &tasks.categories()[0];
    assert_eq!(mixed.tasks().len(), 1);
    assert_eq!(mixed.tasks()[0].description(), "kept");
}

#[test]
fn clean_removes_complete_tasks_and_keeps_category_order() {
    let list = Node::List {
        children: vec![
            Node::Item {
                children: vec![
                    para("First"),
                    Node::List {
                        children: vec![task_item("[x] done"), task_item("[ ] open")],
                    },
                ],
            },
            Node::Item {
                children: vec![
                    para("Second"),
                    Node::List { children: vec![task_item("[x] gone")] },
                ],
            },
        ],
    };
    let mut tasks = parse_task_list(&list).unwrap();
    tasks.clean();
    assert_eq!(tasks.categories().len(), 2);
    assert_eq!(tasks.categories()[0].name(), "First");
    assert_eq!(tasks.categories()[0].tasks().len(), 1);
    assert_eq!(tasks.categories()[0].tasks()[0].description(), "open");
    assert_eq!(tasks.categories()[1].name(), "Second");
    assert_eq!(tasks.categories()[1].tasks().len(), 0);
}
