//! The task section: categories of tasks, their parsing, and cleaning.

use crate::error::PlanError;
use crate::node::{
    children_of, get_node_text, lemma_nodes_view, node_children, node_text, node_view, nodes_view,
    Node, NodeV,
};
use crate::text::{has_prefix, is_ws, str_has_prefix, strip_all, strip_prefix_all, trim, trim_spec};
use vstd::prelude::*;

verus! {

/// Whether a task has been done.
#[derive(Debug, Clone, Copy, PartialEq, Eq, Structural)]
pub enum TaskStatus {
    Complete,
    Incomplete,
}

/// One task: its description with the marker prefix stripped, and its status.
#[derive(Debug, Clone)]
pub struct Task {
    description: String,
    status: TaskStatus,
}

/// The mathematical shape of a `Task`.
#[verifier::ext_equal]
pub struct TaskV {
    pub description: Seq<char>,
    pub status: TaskStatus,
}

impl View for Task {
    type V = TaskV;

    closed spec fn view(&self) -> TaskV {
        TaskV { description: self.description@, status: self.status }
    }
}

/// The views of a sequence of tasks.
pub open spec fn tasks_view(s: Seq<Task>) -> Seq<TaskV> {
    s.map_values(|t: Task| t@)
}

impl Task {
    pub fn description(&self) -> (r: &str)
        ensures
            r@ == self@.description,
    {
        self.description.as_str()
    }

    pub fn status(&self) -> (r: &TaskStatus)
        ensures
            *r == self@.status,
    {
        &self.status
    }
}

/// A named grouping of tasks; the name may be empty, and so may the group.
#[derive(Debug, Clone)]
pub struct TaskCategory {
    name: String,
    tasks: Vec<Task>,
}

/// The mathematical shape of a `TaskCategory`.
#[verifier::ext_equal]
pub struct CatV {
    pub name: Seq<char>,
    pub tasks: Seq<TaskV>,
}

impl View for TaskCategory {
    type V = CatV;

    closed spec fn view(&self) -> CatV {
        CatV { name: self.name@, tasks: tasks_view(self.tasks@) }
    }
}

/// The views of a sequence of categories.
pub open spec fn cats_view(s: Seq<TaskCategory>) -> Seq<CatV> {
    s.map_values(|c: TaskCategory| c@)
}

/// The tasks of a category that are not complete, in order.
pub open spec fn keep_incomplete(s: Seq<TaskV>) -> Seq<TaskV>
    decreases s.len(),
{
    if s.len() == 0 {
        Seq::empty()
    } else {
        (if s[0].status is Incomplete {
            seq![s[0]]
        } else {
            Seq::<TaskV>::empty()
        }) + keep_incomplete(s.drop_first())
    }
}

/// A cleaned category: the same name, only the incomplete tasks.
pub open spec fn clean_cat(c: CatV) -> CatV {
    CatV { name: c.name, tasks: keep_incomplete(c.tasks) }
}

impl TaskCategory {
    pub fn name(&self) -> (r: &str)
        ensures
            r@ == self@.name,
    {
        self.name.as_str()
    }

    pub fn tasks(&self) -> (r: &Vec<Task>)
        ensures
            tasks_view(r@) == self@.tasks,
    {
        &self.tasks
    }

    /// Removes every complete task; name and task order are untouched.
    pub fn clean(&mut self)
        ensures
            final(self)@ == clean_cat(old(self)@),
    {
        let n = self.tasks.len();
        let mut kept: Vec<Task> = Vec::new();
        let mut i: usize = 0;
        proof {
            assert(tasks_view(self.tasks@).subrange(0, n as int) =~= tasks_view(self.tasks@));
            assert(tasks_view(kept@) + keep_incomplete(
                tasks_view(self.tasks@).subrange(0, n as int),
            ) =~= keep_incomplete(tasks_view(self.tasks@)));
        }
        while i < n
            invariant
                0 <= i <= n,
                n == self.tasks@.len(),
                self == old(self),
                tasks_view(kept@) + keep_incomplete(
                    tasks_view(self.tasks@).subrange(i as int, n as int),
                ) == keep_incomplete(tasks_view(self.tasks@)),
            decreases n - i,
        {
            let ghost sfx = tasks_view(self.tasks@).subrange(i as int, n as int);
            proof {
                assert(sfx[0] == self.tasks@[i as int]@);
                assert(sfx.drop_first() =~= tasks_view(self.tasks@).subrange(i + 1, n as int));
            }
            let t = &self.tasks[i];
            match t.status {
                TaskStatus::Incomplete => {
                    let copy = Task { description: t.description.clone(), status: t.status };
                    proof {
                        assert(tasks_view(kept@.push(copy)) =~= tasks_view(kept@).push(copy@));
                        assert(tasks_view(kept@).push(copy@) + keep_incomplete(sfx.drop_first())
                            =~= tasks_view(kept@) + keep_incomplete(sfx));
                    }
                    kept.push(copy);
                },
                TaskStatus::Complete => {
                    proof {
                        assert(keep_incomplete(sfx) == keep_incomplete(sfx.drop_first()));
                    }
                },
            }
            i = i + 1;
        }
        proof {
            assert(tasks_view(self.tasks@).subrange(n as int, n as int) =~= Seq::<TaskV>::empty());
            assert(tasks_view(kept@) + Seq::<TaskV>::empty() =~= tasks_view(kept@));
        }
        self.tasks = kept;
    }
}

/// An ordered list of task categories.
#[derive(Debug, Clone)]
pub struct TaskList {
    categories: Vec<TaskCategory>,
}

impl View for TaskList {
    type V = Seq<CatV>;

    closed spec fn view(&self) -> Seq<CatV> {
        cats_view(self.categories@)
    }
}

/// A cleaned task list: every category cleaned, order kept.
pub open spec fn clean_list(cats: Seq<CatV>) -> Seq<CatV> {
    cats.map_values(|c: CatV| clean_cat(c))
}

impl TaskList {
    pub fn categories(&self) -> (r: &[TaskCategory])
        ensures
            cats_view(r@) == self@,
    {
        self.categories.as_slice()
    }

    /// Cleans every category, in place.
    pub fn clean(&mut self)
        ensures
            final(self)@ == clean_list(old(self)@),
    {
        let mut cleaned: Vec<TaskCategory> = Vec::new();
        proof {
            assert(cats_view(cleaned@) =~= clean_list(cats_view(old(self).categories@)).subrange(
                0,
                0,
            ));
        }
        while self.categories.len() > 0
            invariant
                cleaned@.len() + self.categories@.len() == old(self).categories@.len(),
                cats_view(cleaned@) == clean_list(cats_view(old(self).categories@)).subrange(
                    0,
                    cleaned@.len() as int,
                ),
                self.categories@ == old(self).categories@.subrange(
                    cleaned@.len() as int,
                    old(self).categories@.len() as int,
                ),
            decreases self.categories@.len(),
        {
            let ghost k = cleaned@.len() as int;
            let mut c = self.categories.remove(0);
            proof {
                assert(old(self).categories@.subrange(k, old(self).categories@.len() as int)[0]
                    == old(self).categories@[k]);
                assert(self.categories@ =~= old(self).categories@.subrange(
                    k + 1,
                    old(self).categories@.len() as int,
                ));
            }
            c.clean();
            proof {
                assert(c@ == clean_cat(old(self).categories@[k]@));
                assert(cats_view(cleaned@.push(c)) =~= cats_view(cleaned@).push(c@));
                assert(cats_view(cleaned@).push(c@) =~= clean_list(
                    cats_view(old(self).categories@),
                ).subrange(0, k + 1));
            }
            cleaned.push(c);
        }
        proof {
            assert(clean_list(cats_view(old(self).categories@)).subrange(
                0,
                cleaned@.len() as int,
            ) =~= clean_list(cats_view(old(self).categories@)));
        }
        self.categories = cleaned;
    }
}

/// The task parsed from one item's text: a `[x]` prefix means complete, any
/// other prefix incomplete; recognized markers are stripped, the rest trimmed.
pub open spec fn task_of_text(text: Seq<char>) -> TaskV {
    TaskV {
        description: trim_spec(strip_all(strip_all(text, "[ ]"@), "[x]"@)),
        status: if has_prefix(text, "[x]"@) {
            TaskStatus::Complete
        } else {
            TaskStatus::Incomplete
        },
    }
}

/// The tasks of a nested list: one per `Item` child, other children skipped.
pub open spec fn tasks_of_items(children: Seq<NodeV>) -> Seq<TaskV>
    decreases children.len(),
{
    if children.len() == 0 {
        Seq::empty()
    } else {
        (match children[0] {
            NodeV::Item { .. } => seq![task_of_text(node_text(children[0]))],
            _ => Seq::<TaskV>::empty(),
        }) + tasks_of_items(children.drop_first())
    }
}

/// How one child of a category node contributes: a paragraph appends its text
/// to the name, a list contributes its items as tasks, anything else nothing.
pub open spec fn cat_step(acc: CatV, n: NodeV) -> CatV {
    match n {
        NodeV::Paragraph { .. } => CatV { name: acc.name + node_text(n), tasks: acc.tasks },
        NodeV::List { children } => CatV {
            name: acc.name,
            tasks: acc.tasks + tasks_of_items(children),
        },
        _ => acc,
    }
}

/// Folds `cat_step` over the children, left to right.
pub open spec fn cat_fold(acc: CatV, children: Seq<NodeV>) -> CatV
    decreases children.len(),
{
    if children.len() == 0 {
        acc
    } else {
        cat_fold(cat_step(acc, children[0]), children.drop_first())
    }
}

/// The category parsed from one child of the task-section list.
pub open spec fn cat_of_node(n: NodeV) -> CatV {
    cat_fold(CatV { name: Seq::empty(), tasks: Seq::empty() }, children_of(n))
}

/// The categories parsed from the task-section list's children, in order.
pub open spec fn cats_of_children(children: Seq<NodeV>) -> Seq<CatV>
    decreases children.len(),
{
    if children.len() == 0 {
        Seq::empty()
    } else {
        seq![cat_of_node(children[0])] + cats_of_children(children.drop_first())
    }
}

/// The task list parsed from the task-section list node.
pub open spec fn task_list_of(n: NodeV) -> Seq<CatV> {
    cats_of_children(children_of(n))
}

/// Parses one task line.
fn parse_task_text(text: &str) -> (r: Task)
    ensures
        r@ == task_of_text(text@),
{
    proof {
        reveal_strlit("[ ]");
        reveal_strlit("[x]");
    }
    let status = if str_has_prefix(text, "[x]") {
        TaskStatus::Complete
    } else {
        TaskStatus::Incomplete
    };
    let unspaced = strip_prefix_all(text, "[ ]");
    let unmarked = strip_prefix_all(unspaced.as_str(), "[x]");
    let description = trim(unmarked.as_str());
    Task { description, status }
}

/// Parses the items of a nested list as tasks and appends them.
fn parse_list_tasks(children: &Vec<Node>, tasks: &mut Vec<Task>)
    ensures
        tasks_view(final(tasks)@) == tasks_view(old(tasks)@) + tasks_of_items(
            nodes_view(children@),
        ),
{
    let ghost all = nodes_view(children@);
    let n = children.len();
    proof {
        lemma_nodes_view(children@);
        assert(all.subrange(0, n as int) =~= all);
        assert(tasks_view(tasks@) + tasks_of_items(all.subrange(0, n as int)) =~= tasks_view(
            tasks@,
        ) + tasks_of_items(all));
    }
    let mut i: usize = 0;
    while i < n
        invariant
            0 <= i <= n,
            n == children@.len(),
            all == nodes_view(children@),
            all.len() == n,
            forall|k: int| 0 <= k < n ==> all[k] == node_view(#[trigger] children@[k]),
            tasks_view(tasks@) + tasks_of_items(all.subrange(i as int, n as int)) == tasks_view(
                old(tasks)@,
            ) + tasks_of_items(all),
        decreases n - i,
    {
        let ghost sfx = all.subrange(i as int, n as int);
        proof {
            assert(sfx[0] == all[i as int]);
            assert(sfx.drop_first() =~= all.subrange(i + 1, n as int));
        }
        let child = &children[i];
        match child {
            Node::Item { .. } => {
                let text = get_node_text(child);
                let task = parse_task_text(text.as_str());
                proof {
                    assert(tasks_view(tasks@.push(task)) =~= tasks_view(tasks@).push(task@));
                    assert(tasks_view(tasks@).push(task@) + tasks_of_items(sfx.drop_first())
                        =~= tasks_view(tasks@) + tasks_of_items(sfx));
                }
                tasks.push(task);
            },
            _ => {
                proof {
                    assert(tasks_of_items(sfx) == tasks_of_items(sfx.drop_first()));
                }
            },
        }
        i = i + 1;
    }
    proof {
        assert(all.subrange(n as int, n as int) =~= Seq::<NodeV>::empty());
        assert(tasks_view(tasks@) + Seq::<TaskV>::empty() =~= tasks_view(tasks@));
    }
}

/// Parses one category: paragraphs feed the name, nested lists the tasks.
fn parse_task_category(node: &Node) -> (r: TaskCategory)
    ensures
        r@ == cat_of_node(node@),
{
    let mut name = String::new();
    let mut tasks: Vec<Task> = Vec::new();
    let children_opt = node_children(node);
    match children_opt {
        None => {
            proof {
                assert(cat_of_node(node@) == CatV {
                    name: Seq::<char>::empty(),
                    tasks: Seq::<TaskV>::empty(),
                });
                assert((TaskCategory { name: name, tasks: tasks })@ =~= cat_of_node(node@));
            }
            TaskCategory { name, tasks }
        },
        Some(children) => {
            let ghost all = children_of(node@);
            let n = children.len();
            proof {
                lemma_nodes_view(children@);
                assert(all.subrange(0, n as int) =~= all);
                assert(CatV { name: name@, tasks: tasks_view(tasks@) } =~= CatV {
                    name: Seq::<char>::empty(),
                    tasks: Seq::<TaskV>::empty(),
                });
            }
            let mut i: usize = 0;
            while i < n
                invariant
                    0 <= i <= n,
                    n == children@.len(),
                    all == nodes_view(children@),
                    all.len() == n,
                    forall|k: int| 0 <= k < n ==> all[k] == node_view(#[trigger] children@[k]),
                    cat_fold(
                        CatV { name: name@, tasks: tasks_view(tasks@) },
                        all.subrange(i as int, n as int),
                    ) == cat_of_node(node@),
                decreases n - i,
            {
                let ghost sfx = all.subrange(i as int, n as int);
                let ghost acc = CatV { name: name@, tasks: tasks_view(tasks@) };
                proof {
                    assert(sfx[0] == all[i as int]);
                    assert(sfx.drop_first() =~= all.subrange(i + 1, n as int));
                }
                let child = &children[i];
                match child {
                    Node::Paragraph { .. } => {
                        let text = get_node_text(child);
                        name.append(text.as_str());
                        proof {
                            assert(CatV { name: name@, tasks: tasks_view(tasks@) } =~= cat_step(
                                acc,
                                sfx[0],
                            ));
                        }
                    },
                    Node::List { children: inner } => {
                        parse_list_tasks(inner, &mut tasks);
                        proof {
                            assert(CatV { name: name@, tasks: tasks_view(tasks@) } =~= cat_step(
                                acc,
                                sfx[0],
                            ));
                        }
                    },
                    _ => {
                        proof {
                            assert(CatV { name: name@, tasks: tasks_view(tasks@) } =~= cat_step(
                                acc,
                                sfx[0],
                            ));
                        }
                    },
                }
                i = i + 1;
            }
            proof {
                assert(all.subrange(n as int, n as int) =~= Seq::<NodeV>::empty());
            }
            TaskCategory { name, tasks }
        },
    }
}

/// Parses the task-section list: each child becomes one category, in order.
/// Never fails; the `Result` records that no input is rejected here.
pub fn parse_task_list(node: &Node) -> (r: Result<TaskList, PlanError>)
    ensures
        r is Ok,
        r->Ok_0@ == task_list_of(node@),
{
    let mut categories: Vec<TaskCategory> = Vec::new();
    let children_opt = node_children(node);
    match children_opt {
        None => {
            proof {
                assert(cats_view(categories@) =~= task_list_of(node@));
            }
            Ok(TaskList { categories })
        },
        Some(children) => {
            let ghost all = children_of(node@);
            let n = children.len();
            proof {
                lemma_nodes_view(children@);
                assert(all.subrange(0, n as int) =~= all);
                assert(cats_view(categories@) + cats_of_children(all.subrange(0, n as int))
                    =~= cats_of_children(all));
            }
            let mut i: usize = 0;
            while i < n
                invariant
                    0 <= i <= n,
                    n == children@.len(),
                    all == nodes_view(children@),
                    all.len() == n,
                    forall|k: int| 0 <= k < n ==> all[k] == node_view(#[trigger] children@[k]),
                    cats_view(categories@) + cats_of_children(all.subrange(i as int, n as int))
                        == cats_of_children(all),
                decreases n - i,
            {
                let ghost sfx = all.subrange(i as int, n as int);
                proof {
                    assert(sfx[0] == all[i as int]);
                    assert(sfx.drop_first() =~= all.subrange(i + 1, n as int));
                }
                let cat = parse_task_category(&children[i]);
                proof {
                    assert(cats_view(categories@.push(cat)) =~= cats_view(categories@).push(
                        cat@,
                    ));
                    assert(cats_view(categories@).push(cat@) + cats_of_children(sfx.drop_first())
                        =~= cats_view(categories@) + cats_of_children(sfx));
                }
                categories.push(cat);
                i = i + 1;
            }
            proof {
                assert(all.subrange(n as int, n as int) =~= Seq::<NodeV>::empty());
                assert(cats_view(categories@) + Seq::<CatV>::empty() =~= cats_view(categories@));
            }
            Ok(TaskList { categories })
        },
    }
}

/// Reading back a serialized incomplete task yields the task: the canonical
/// `[ ]` marker is stripped and the trimmed description survives unchanged.
pub proof fn lemma_task_text_round_trip(desc: Seq<char>)
    requires
        trim_spec(desc) == desc,
    ensures
        task_of_text("[ ] "@ + desc) == (TaskV { description: desc, status: TaskStatus::Incomplete }),
{
    reveal_strlit("[ ] ");
    reveal_strlit("[ ]");
    reveal_strlit("[x]");
    let text = "[ ] "@ + desc;
    assert(text.len() == 4 + desc.len());
    assert(!has_prefix(text, "[x]"@)) by {
        if has_prefix(text, "[x]"@) {
            assert(text.subrange(0, 3)[1] == text[1]);
            assert(text[1] == ' ');
            assert("[x]"@[1] == 'x');
        }
    }
    assert(has_prefix(text, "[ ]"@)) by {
        assert(text.subrange(0, 3) =~= "[ ]"@);
    }
    let rest = text.subrange(3, text.len() as int);
    assert(rest =~= seq![' '] + desc);
    assert(strip_all(text, "[ ]"@) == strip_all(rest, "[ ]"@));
    assert(!has_prefix(rest, "[ ]"@)) by {
        if has_prefix(rest, "[ ]"@) {
            assert(rest.subrange(0, 3)[0] == rest[0]);
            assert(rest[0] == ' ');
            assert("[ ]"@[0] == '[');
        }
    }
    assert(strip_all(rest, "[ ]"@) == rest);
    assert(!has_prefix(rest, "[x]"@)) by {
        if has_prefix(rest, "[x]"@) {
            assert(rest.subrange(0, 3)[0] == rest[0]);
            assert(rest[0] == ' ');
            assert("[x]"@[0] == '[');
        }
    }
    assert(strip_all(rest, "[x]"@) == rest);
    assert(is_ws(rest[0]));
    assert(rest.drop_first() =~= desc);
    assert(trim_spec(rest) == trim_spec(desc));
    assert(task_of_text(text) =~= (TaskV {
        description: desc,
        status: TaskStatus::Incomplete,
    }));
}

/// Every task a cleaned category keeps is incomplete.
pub proof fn lemma_keep_incomplete_all(s: Seq<TaskV>)
    ensures
        forall|i: int|
            0 <= i < keep_incomplete(s).len() ==> (#[trigger] keep_incomplete(s)[i]).status
                is Incomplete,
    decreases s.len(),
{
    if s.len() > 0 {
        lemma_keep_incomplete_all(s.drop_first());
    }
}

/// Cleaning a second time changes nothing.
pub proof fn lemma_keep_incomplete_idempotent(s: Seq<TaskV>)
    ensures
        keep_incomplete(keep_incomplete(s)) == keep_incomplete(s),
    decreases s.len(),
{
    if s.len() == 0 {
    } else {
        lemma_keep_incomplete_idempotent(s.drop_first());
        if s[0].status is Incomplete {
            let k = keep_incomplete(s);
            assert(k == seq![s[0]] + keep_incomplete(s.drop_first()));
            assert(k[0] == s[0]);
            assert(k.drop_first() =~= keep_incomplete(s.drop_first()));
            assert(keep_incomplete(k) =~= keep_incomplete(s));
        } else {
            assert(keep_incomplete(s) == keep_incomplete(s.drop_first()));
        }
    }
}

} // verus!
