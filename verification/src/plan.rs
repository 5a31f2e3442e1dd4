//! The plan aggregate: scanning a document's blocks into the model, cleaning
//! it for a new day, and the canonical serializer.

use crate::blocks::{doc_tree_of, parse_doc_tree};
use crate::date::{date_str, parse_mdy_spec, weekday_name, Date};
use crate::error::{PlanError, PlanErrorV};
use crate::node::{
    children_of, get_node_text, lemma_nodes_view, node_children, node_text, node_view, nodes_view,
    Node, NodeV,
};
use crate::schedule::{
    events_view, events_wf, lemma_parse_schedule_wf, parse_schedule, parse_schedule_spec,
    sched_wf, Event, EventV, SchedAcc, SchedV, Schedule,
};
use crate::tasks::{
    cats_view, clean_cat, clean_list, keep_incomplete, lemma_keep_incomplete_all,
    lemma_keep_incomplete_idempotent, parse_task_list, task_list_of, tasks_view, CatV, Task,
    TaskCategory, TaskList, TaskStatus, TaskV,
};
use crate::text::{eq_lower, lower_char, lower_seq, trim, trim_spec};
use crate::time::time_str;
use vstd::prelude::*;

verus! {

/// Where the scan over the top-level blocks stands.
#[derive(Debug, Clone, Copy, PartialEq, Eq, Structural)]
pub enum ScanState {
    Initial,
    DateFound,
    TaskSectionStart,
    TaskSectionEnd,
    ScheduleSectionStart,
    ScheduleSectionEnd,
}

/// The scan's whole state: where it stands and what it has gathered.
#[verifier::ext_equal]
pub struct ScanAcc {
    pub state: ScanState,
    pub date_text: Seq<char>,
    pub tasks: Option<Seq<CatV>>,
    pub schedule: Option<SchedV>,
}

/// The scan before any block has been seen.
pub open spec fn initial_scan() -> ScanAcc {
    ScanAcc {
        state: ScanState::Initial,
        date_text: Seq::empty(),
        tasks: None,
        schedule: None,
    }
}

/// One step of the scan: what one top-level block does to the state. A
/// heading advances it where level and title fit; the first list after each
/// section heading is parsed; everything else is skipped. Only a schedule
/// label mismatch is fatal.
pub open spec fn scan_step(acc: ScanAcc, n: NodeV) -> Result<ScanAcc, Seq<char>> {
    match acc.state {
        ScanState::Initial => match n {
            NodeV::Heading { level, .. } => {
                if level == 1 {
                    Ok(
                        ScanAcc {
                            state: ScanState::DateFound,
                            date_text: node_text(n),
                            tasks: acc.tasks,
                            schedule: acc.schedule,
                        },
                    )
                } else {
                    Ok(acc)
                }
            },
            _ => Ok(acc),
        },
        ScanState::DateFound => match n {
            NodeV::Heading { level, .. } => {
                if level == 2 && lower_seq(trim_spec(node_text(n))) == "tasks"@ {
                    Ok(
                        ScanAcc {
                            state: ScanState::TaskSectionStart,
                            date_text: acc.date_text,
                            tasks: acc.tasks,
                            schedule: acc.schedule,
                        },
                    )
                } else {
                    Ok(acc)
                }
            },
            _ => Ok(acc),
        },
        ScanState::TaskSectionStart => match n {
            NodeV::List { .. } => Ok(
                ScanAcc {
                    state: ScanState::TaskSectionEnd,
                    date_text: acc.date_text,
                    tasks: Some(task_list_of(n)),
                    schedule: acc.schedule,
                },
            ),
            _ => Ok(acc),
        },
        ScanState::TaskSectionEnd => match n {
            NodeV::Heading { level, .. } => {
                if level == 2 && lower_seq(trim_spec(node_text(n))) == "schedule"@ {
                    Ok(
                        ScanAcc {
                            state: ScanState::ScheduleSectionStart,
                            date_text: acc.date_text,
                            tasks: acc.tasks,
                            schedule: acc.schedule,
                        },
                    )
                } else {
                    Ok(acc)
                }
            },
            _ => Ok(acc),
        },
        ScanState::ScheduleSectionStart => match n {
            NodeV::List { .. } => match parse_schedule_spec(n) {
                Ok(s) => Ok(
                    ScanAcc {
                        state: ScanState::ScheduleSectionEnd,
                        date_text: acc.date_text,
                        tasks: acc.tasks,
                        schedule: Some(s),
                    },
                ),
                Err(t) => Err(t),
            },
            _ => Ok(acc),
        },
        ScanState::ScheduleSectionEnd => Ok(acc),
    }
}

/// The scan folded over a sequence of top-level blocks.
pub open spec fn scan_fold(acc: ScanAcc, nodes: Seq<NodeV>) -> Result<ScanAcc, Seq<char>>
    decreases nodes.len(),
{
    if nodes.len() == 0 {
        Ok(acc)
    } else {
        match scan_step(acc, nodes[0]) {
            Ok(acc2) => scan_fold(acc2, nodes.drop_first()),
            Err(t) => Err(t),
        }
    }
}

/// The mathematical shape of a `Plan`.
#[verifier::ext_equal]
pub struct PlanV {
    pub date: Date,
    pub tasks: Option<Seq<CatV>>,
    pub schedule: Option<SchedV>,
}

/// The view of an optional task list.
pub open spec fn tasks_opt_view(o: Option<TaskList>) -> Option<Seq<CatV>> {
    match o {
        Some(t) => Some(t@),
        None => None,
    }
}

/// The view of an optional schedule.
pub open spec fn sched_opt_view(o: Option<Schedule>) -> Option<SchedV> {
    match o {
        Some(s) => Some(s@),
        None => None,
    }
}

/// What parsing a whole document tree yields: the scan runs to completion,
/// then the gathered heading text must parse as a date; a missing or
/// malformed date is fatal, and so is a schedule label mismatch. Absent
/// sections stay `None`.
pub open spec fn from_markdown_spec(root: NodeV) -> Result<PlanV, PlanErrorV> {
    match scan_fold(initial_scan(), children_of(root)) {
        Err(t) => Err(PlanErrorV::ScheduleLabelMismatch { text: t }),
        Ok(acc) => match parse_mdy_spec(trim_spec(acc.date_text)) {
            Some(d) => Ok(PlanV { date: d, tasks: acc.tasks, schedule: acc.schedule }),
            None => Err(PlanErrorV::DateMissingOrMalformed),
        },
    }
}

/// A well-formed plan: a real calendar date, and only valid times of day.
pub open spec fn plan_wf(p: PlanV) -> bool {
    &&& p.date.wf()
    &&& match p.schedule {
        Some(s) => sched_wf(s),
        None => true,
    }
}

/// A cleaned plan: complete tasks gone, categories and their order kept, and
/// both schedule lists emptied; the date stands.
pub open spec fn clean_plan(p: PlanV) -> PlanV {
    PlanV {
        date: p.date,
        tasks: match p.tasks {
            Some(cs) => Some(clean_list(cs)),
            None => None,
        },
        schedule: match p.schedule {
            Some(_) => Some(SchedV { planned: Seq::empty(), actual: Seq::empty() }),
            None => None,
        },
    }
}

/// One rendered task line; a complete task renders as nothing at all.
pub open spec fn md_task(t: TaskV) -> Seq<char> {
    if t.status is Incomplete {
        "  - [ ] "@ + t.description + "\n"@
    } else {
        Seq::empty()
    }
}

/// The rendered lines of a category's tasks, in order.
pub open spec fn md_tasks(ts: Seq<TaskV>) -> Seq<char>
    decreases ts.len(),
{
    if ts.len() == 0 {
        Seq::empty()
    } else {
        md_task(ts[0]) + md_tasks(ts.drop_first())
    }
}

/// One rendered category: a bold bullet with its name, then its task lines.
pub open spec fn md_cat(c: CatV) -> Seq<char> {
    "- **"@ + c.name + "**\n"@ + md_tasks(c.tasks)
}

/// The rendered categories, in order.
pub open spec fn md_cats(cs: Seq<CatV>) -> Seq<char>
    decreases cs.len(),
{
    if cs.len() == 0 {
        Seq::empty()
    } else {
        md_cat(cs[0]) + md_cats(cs.drop_first())
    }
}

/// One rendered event: an indented bullet, the zero-padded time, a tab, and
/// the description.
pub open spec fn md_event(e: EventV) -> Seq<char> {
    "  - "@ + time_str(e.start) + "\t"@ + e.description + "\n"@
}

/// The rendered events, in order.
pub open spec fn md_events(es: Seq<EventV>) -> Seq<char>
    decreases es.len(),
{
    if es.len() == 0 {
        Seq::empty()
    } else {
        md_event(es[0]) + md_events(es.drop_first())
    }
}

/// The canonical serialization of a plan: the date heading, the weekday, the
/// task section when present (incomplete tasks only), the schedule section
/// when present, and the trailing notes heading.
pub open spec fn md_plan(p: PlanV) -> Seq<char> {
    "# "@ + date_str(p.date) + "\n"@ + weekday_name(p.date.day_of_week()) + "\n"@ + "\n"@ + (
    match p.tasks {
        Some(cs) => "## Tasks\n"@ + md_cats(cs) + "\n"@,
        None => Seq::empty(),
    }) + (match p.schedule {
        Some(s) => "## Schedule\n"@ + "- **Planned**\n"@ + md_events(s.planned)
            + "- **Actual**\n"@ + md_events(s.actual),
        None => Seq::empty(),
    }) + "## Notes\n"@ + "\n"@
}

/// Writes one category's task lines.
fn write_tasks_md(tasks: &Vec<Task>, out: &mut String)
    ensures
        final(out)@ == old(out)@ + md_tasks(tasks_view(tasks@)),
{
    let ghost all = tasks_view(tasks@);
    let n = tasks.len();
    proof {
        assert(all.subrange(0, n as int) =~= all);
    }
    let mut i: usize = 0;
    while i < n
        invariant
            0 <= i <= n,
            n == tasks@.len(),
            all == tasks_view(tasks@),
            out@ + md_tasks(all.subrange(i as int, n as int)) == old(out)@ + md_tasks(all),
        decreases n - i,
    {
        let ghost sfx = all.subrange(i as int, n as int);
        proof {
            assert(sfx[0] == tasks@[i as int]@);
            assert(sfx.drop_first() =~= all.subrange(i + 1, n as int));
        }
        let task = &tasks[i];
        match task.status() {
            TaskStatus::Incomplete => {
                out.append("  - [ ] ");
                out.append(task.description());
                out.append("\n");
                proof {
                    assert(out@ + md_tasks(sfx.drop_first()) =~= old(out)@ + md_tasks(all));
                }
            },
            TaskStatus::Complete => {
                proof {
                    assert(md_task(sfx[0]) + md_tasks(sfx.drop_first()) =~= md_tasks(
                        sfx.drop_first(),
                    ));
                }
            },
        }
        i = i + 1;
    }
    proof {
        assert(all.subrange(n as int, n as int) =~= Seq::<TaskV>::empty());
        assert(out@ + Seq::<char>::empty() =~= out@);
    }
}

/// Writes the task section's categories.
fn write_cats_md(cats: &[TaskCategory], out: &mut String)
    ensures
        final(out)@ == old(out)@ + md_cats(cats_view(cats@)),
{
    let ghost all = cats_view(cats@);
    let n = cats.len();
    proof {
        assert(all.subrange(0, n as int) =~= all);
    }
    let mut i: usize = 0;
    while i < n
        invariant
            0 <= i <= n,
            n == cats@.len(),
            all == cats_view(cats@),
            out@ + md_cats(all.subrange(i as int, n as int)) == old(out)@ + md_cats(all),
        decreases n - i,
    {
        let ghost sfx = all.subrange(i as int, n as int);
        proof {
            assert(sfx[0] == cats@[i as int]@);
            assert(sfx.drop_first() =~= all.subrange(i + 1, n as int));
        }
        let cat = &cats[i];
        out.append("- **");
        out.append(cat.name());
        out.append("**\n");
        write_tasks_md(cat.tasks(), out);
        proof {
            assert(out@ + md_cats(sfx.drop_first()) =~= old(out)@ + md_cats(all));
        }
        i = i + 1;
    }
    proof {
        assert(all.subrange(n as int, n as int) =~= Seq::<CatV>::empty());
        assert(out@ + Seq::<char>::empty() =~= out@);
    }
}

/// Writes one event list's lines.
fn write_events_md(events: &[Event], out: &mut String)
    requires
        events_wf(events_view(events@)),
    ensures
        final(out)@ == old(out)@ + md_events(events_view(events@)),
{
    let ghost all = events_view(events@);
    let n = events.len();
    proof {
        assert(all.subrange(0, n as int) =~= all);
    }
    let mut i: usize = 0;
    while i < n
        invariant
            0 <= i <= n,
            n == events@.len(),
            all == events_view(events@),
            events_wf(all),
            out@ + md_events(all.subrange(i as int, n as int)) == old(out)@ + md_events(all),
        decreases n - i,
    {
        let ghost sfx = all.subrange(i as int, n as int);
        proof {
            assert(sfx[0] == events@[i as int]@);
            assert(sfx.drop_first() =~= all.subrange(i + 1, n as int));
        }
        let event = &events[i];
        out.append("  - ");
        let time = event.start().to_hhmm();
        out.append(time.as_str());
        out.append("\t");
        out.append(event.description());
        out.append("\n");
        proof {
            assert(out@ + md_events(sfx.drop_first()) =~= old(out)@ + md_events(all));
        }
        i = i + 1;
    }
    proof {
        assert(all.subrange(n as int, n as int) =~= Seq::<EventV>::empty());
        assert(out@ + Seq::<char>::empty() =~= out@);
    }
}

/// One day's plan: its date, and the task and schedule sections when present.
#[derive(Debug, Clone)]
pub struct Plan {
    date: Date,
    tasks: Option<TaskList>,
    schedule: Option<Schedule>,
}

impl View for Plan {
    type V = PlanV;

    closed spec fn view(&self) -> PlanV {
        PlanV {
            date: self.date,
            tasks: tasks_opt_view(self.tasks),
            schedule: sched_opt_view(self.schedule),
        }
    }
}

impl Plan {
    /// A well-formed plan value.
    pub open spec fn wf(self) -> bool {
        plan_wf(self@)
    }

    /// Initializes a new plan.
    pub fn new(date: Date, tasks: Option<TaskList>, schedule: Option<Schedule>) -> (r: Plan)
        requires
            date.wf(),
            match schedule {
                Some(s) => sched_wf(s@),
                None => true,
            },
        ensures
            r@ == (PlanV {
                date,
                tasks: tasks_opt_view(tasks),
                schedule: sched_opt_view(schedule),
            }),
            r.wf(),
    {
        Plan { date, tasks, schedule }
    }

    /// Creates a `Plan` from a markdown document.
    pub fn from_markdown(doc: &str) -> (r: Result<Plan, PlanError>)
        ensures
            match r {
                Ok(p) => from_markdown_spec(doc_tree_of(doc@)) == Ok::<PlanV, PlanErrorV>(p@)
                    && p.wf(),
                Err(e) => from_markdown_spec(doc_tree_of(doc@)) == Err::<PlanV, PlanErrorV>(e@),
            },
    {
        let root = parse_doc_tree(doc);
        Plan::from_blocks(&root)
    }

    /// Creates a `Plan` from an already-built block tree: the scan the state
    /// table describes, then the date parse. This is the whole parse except
    /// the text-to-tree step, so it can be driven without a markdown parser.
    pub fn from_blocks(root: &Node) -> (r: Result<Plan, PlanError>)
        ensures
            match r {
                Ok(p) => from_markdown_spec(root@) == Ok::<PlanV, PlanErrorV>(p@) && p.wf(),
                Err(e) => from_markdown_spec(root@) == Err::<PlanV, PlanErrorV>(e@),
            },
    {
        let mut state = ScanState::Initial;
        let mut date_text = String::new();
        let mut tasks: Option<TaskList> = None;
        let mut schedule: Option<Schedule> = None;
        proof {
            assert(ScanAcc {
                state: state,
                date_text: date_text@,
                tasks: tasks_opt_view(tasks),
                schedule: sched_opt_view(schedule),
            } =~= initial_scan());
        }
        match node_children(root) {
            None => {
                proof {
                    assert(scan_fold(initial_scan(), children_of(root@)) == Ok::<
                        ScanAcc,
                        Seq<char>,
                    >(initial_scan()));
                }
            },
            Some(children) => {
                let ghost all = children_of(root@);
                let n = children.len();
                proof {
                    lemma_nodes_view(children@);
                    assert(all.subrange(0, n as int) =~= all);
                }
                let mut i: usize = 0;
                while i < n
                    invariant
                        0 <= i <= n,
                        n == children@.len(),
                        all == nodes_view(children@),
                        all == children_of(root@),
                        all.len() == n,
                        forall|k: int|
                            0 <= k < n ==> all[k] == node_view(#[trigger] children@[k]),
                        scan_fold(initial_scan(), all) == scan_fold(
                            ScanAcc {
                                state: state,
                                date_text: date_text@,
                                tasks: tasks_opt_view(tasks),
                                schedule: sched_opt_view(schedule),
                            },
                            all.subrange(i as int, n as int),
                        ),
                        match schedule {
                            Some(s) => sched_wf(s@),
                            None => true,
                        },
                    decreases n - i,
                {
                    let ghost sfx = all.subrange(i as int, n as int);
                    let ghost acc = ScanAcc {
                        state: state,
                        date_text: date_text@,
                        tasks: tasks_opt_view(tasks),
                        schedule: sched_opt_view(schedule),
                    };
                    proof {
                        assert(sfx[0] == all[i as int]);
                        assert(sfx.drop_first() =~= all.subrange(i + 1, n as int));
                    }
                    let child = &children[i];
                    match state {
                        ScanState::Initial => {
                            match child {
                                Node::Heading { level, .. } => {
                                    if *level == 1 {
                                        date_text = get_node_text(child);
                                        state = ScanState::DateFound;
                                    }
                                },
                                _ => {},
                            }
                        },
                        ScanState::DateFound => {
                            match child {
                                Node::Heading { level, .. } => {
                                    if *level == 2 {
                                        let text = get_node_text(child);
                                        let trimmed = trim(text.as_str());
                                        if eq_lower(trimmed.as_str(), "tasks") {
                                            state = ScanState::TaskSectionStart;
                                        }
                                    }
                                },
                                _ => {},
                            }
                        },
                        ScanState::TaskSectionStart => {
                            match child {
                                Node::List { .. } => {
                                    match parse_task_list(child) {
                                        Ok(tl) => {
                                            tasks = Some(tl);
                                            state = ScanState::TaskSectionEnd;
                                        },
                                        Err(_) => {
                                            proof {
                                                assert(false);
                                            }
                                        },
                                    }
                                },
                                _ => {},
                            }
                        },
                        ScanState::TaskSectionEnd => {
                            match child {
                                Node::Heading { level, .. } => {
                                    if *level == 2 {
                                        let text = get_node_text(child);
                                        let trimmed = trim(text.as_str());
                                        if eq_lower(trimmed.as_str(), "schedule") {
                                            state = ScanState::ScheduleSectionStart;
                                        }
                                    }
                                },
                                _ => {},
                            }
                        },
                        ScanState::ScheduleSectionStart => {
                            match child {
                                Node::List { .. } => {
                                    match parse_schedule(child) {
                                        Ok(s) => {
                                            proof {
                                                lemma_parse_schedule_wf(all[i as int]);
                                            }
                                            schedule = Some(s);
                                            state = ScanState::ScheduleSectionEnd;
                                        },
                                        Err(e) => {
                                            proof {
                                                let t = parse_schedule_spec(sfx[0])->Err_0;
                                                assert(scan_step(acc, sfx[0]) == Err::<
                                                    ScanAcc,
                                                    Seq<char>,
                                                >(t));
                                                assert(scan_fold(initial_scan(), all) == Err::<
                                                    ScanAcc,
                                                    Seq<char>,
                                                >(t));
                                                assert(from_markdown_spec(root@)
                                                    == Err::<PlanV, PlanErrorV>(
                                                    PlanErrorV::ScheduleLabelMismatch { text: t },
                                                ));
                                            }
                                            return Err(e);
                                        },
                                    }
                                },
                                _ => {},
                            }
                        },
                        ScanState::ScheduleSectionEnd => {},
                    }
                    proof {
                        assert(scan_step(acc, sfx[0]) == Ok::<ScanAcc, Seq<char>>(
                            ScanAcc {
                                state: state,
                                date_text: date_text@,
                                tasks: tasks_opt_view(tasks),
                                schedule: sched_opt_view(schedule),
                            },
                        ));
                    }
                    i = i + 1;
                }
                proof {
                    assert(all.subrange(n as int, n as int) =~= Seq::<NodeV>::empty());
                }
            },
        }
        proof {
            assert(scan_fold(initial_scan(), children_of(root@)) == Ok::<ScanAcc, Seq<char>>(
                ScanAcc {
                    state: state,
                    date_text: date_text@,
                    tasks: tasks_opt_view(tasks),
                    schedule: sched_opt_view(schedule),
                },
            ));
        }
        let trimmed = trim(date_text.as_str());
        match Date::parse_mdy(trimmed.as_str()) {
            Some(date) => {
                let p = Plan { date, tasks, schedule };
                proof {
                    assert(from_markdown_spec(root@) == Ok::<PlanV, PlanErrorV>(p@));
                }
                Ok(p)
            },
            None => {
                proof {
                    assert(from_markdown_spec(root@) == Err::<PlanV, PlanErrorV>(
                        PlanErrorV::DateMissingOrMalformed,
                    ));
                }
                Err(PlanError::DateMissingOrMalformed)
            },
        }
    }

    /// The plan's date.
    pub fn date(&self) -> (r: Date)
        ensures
            r == self@.date,
    {
        self.date
    }

    /// The name of the plan's day of the week, from the stored date alone.
    pub fn day(&self) -> (r: &'static str)
        requires
            self@.date.wf(),
        ensures
            r@ == weekday_name(self@.date.day_of_week()),
    {
        let month: u32 = self.date.month as u32;
        let year: u32 = self.date.year as u32;
        let mm: u32 = if month <= 2 {
            month + 12
        } else {
            month
        };
        let yy: u32 = if month <= 2 {
            year - 1
        } else {
            year
        };
        let k: u32 = yy % 100;
        let j: u32 = yy / 100;
        let h: u32 = ((self.date.day as u32) + (13 * (mm + 1)) / 5 + k + k / 4 + j / 4 + 5 * j)
            % 7;
        if h == 0 {
            "Saturday"
        } else if h == 1 {
            "Sunday"
        } else if h == 2 {
            "Monday"
        } else if h == 3 {
            "Tuesday"
        } else if h == 4 {
            "Wednesday"
        } else if h == 5 {
            "Thursday"
        } else {
            "Friday"
        }
    }

    /// The task section, if one is present.
    pub fn tasks(&self) -> (r: &Option<TaskList>)
        ensures
            tasks_opt_view(*r) == self@.tasks,
    {
        &self.tasks
    }

    /// The schedule section, if one is present.
    pub fn schedule(&self) -> (r: &Option<Schedule>)
        ensures
            sched_opt_view(*r) == self@.schedule,
    {
        &self.schedule
    }

    /// Sets the plan date.
    pub fn set_date(&mut self, date: Date)
        requires
            date.wf(),
        ensures
            final(self)@ == (PlanV {
                date,
                tasks: old(self)@.tasks,
                schedule: old(self)@.schedule,
            }),
    {
        self.date = date;
        proof {
            assert(self@ =~= (PlanV {
                date,
                tasks: old(self)@.tasks,
                schedule: old(self)@.schedule,
            }));
        }
    }

    /// Whether the plan is well formed: a real calendar date and only valid
    /// times of day. Every plan this library hands out is; the check lets a
    /// caller that assembled values elsewhere fail before serializing.
    pub fn is_well_formed(&self) -> (r: bool)
        ensures
            r == self.wf(),
    {
        let d = self.date;
        let date_ok = 1 <= d.year && d.year <= 9999 && 1 <= d.month && d.month <= 12 && 1 <= d.day
            && d.day <= crate::date::month_len(d.year, d.month);
        if !date_ok {
            return false;
        }
        match &self.schedule {
            Some(s) => crate::schedule::events_all_wf(s.planned())
                && crate::schedule::events_all_wf(s.actual()),
            None => true,
        }
    }

    /// Exports a copy of the plan as markdown, in the canonical form that
    /// `md_plan` states. Complete tasks are never emitted, whether or not
    /// the plan was cleaned.
    #[verifier::rlimit(50)]
    pub fn to_markdown(&self) -> (r: String)
        requires
            self.wf(),
        ensures
            r@ == md_plan(self@),
    {
        let mut md = String::new();
        md.append("# ");
        let ds = self.date.to_mdy();
        md.append(ds.as_str());
        md.append("\n");
        let dayname = self.day();
        md.append(dayname);
        md.append("\n");
        md.append("\n");
        let ghost head = md@;
        match &self.tasks {
            Some(tasks) => {
                md.append("## Tasks\n");
                write_cats_md(tasks.categories(), &mut md);
                md.append("\n");
            },
            None => {},
        }
        let ghost with_tasks = md@;
        match &self.schedule {
            Some(schedule) => {
                md.append("## Schedule\n");
                md.append("- **Planned**\n");
                write_events_md(schedule.planned(), &mut md);
                md.append("- **Actual**\n");
                write_events_md(schedule.actual(), &mut md);
            },
            None => {},
        }
        md.append("## Notes\n");
        md.append("\n");
        proof {
            assert(md@ =~= md_plan(self@));
        }
        md
    }

    /// Cleans the plan: complete tasks are removed from every category, the
    /// categories themselves stand, and the schedule's lists are emptied.
    pub fn clean(&mut self)
        ensures
            final(self)@ == clean_plan(old(self)@),
    {
        match &mut self.tasks {
            Some(t) => {
                t.clean();
            },
            None => {},
        }
        match &mut self.schedule {
            Some(s) => {
                s.clean();
            },
            None => {},
        }
        proof {
            assert(self@ =~= clean_plan(old(self)@));
        }
    }
}

/// The section headings the serializer writes are exactly the ones the
/// scanner accepts: trimmed and lower-cased they equal the section titles.
pub proof fn lemma_canonical_headings()
    ensures
        lower_seq(trim_spec("Tasks"@)) == "tasks"@,
        lower_seq(trim_spec("Schedule"@)) == "schedule"@,
        trim_spec("Tasks"@) == "Tasks"@,
        trim_spec("Schedule"@) == "Schedule"@,
{
    reveal_strlit("Tasks");
    reveal_strlit("tasks");
    reveal_strlit("Schedule");
    reveal_strlit("schedule");
    assert forall|i: int|
        0 <= i < "Tasks"@.len() implies !crate::text::is_ws(#[trigger] "Tasks"@[i]) by {}
    crate::text::lemma_trim_no_ws("Tasks"@);
    assert(lower_seq("Tasks"@) =~= "tasks"@);
    assert forall|i: int|
        0 <= i < "Schedule"@.len() implies !crate::text::is_ws(#[trigger] "Schedule"@[i]) by {}
    crate::text::lemma_trim_no_ws("Schedule"@);
    assert(lower_seq("Schedule"@) =~= "schedule"@);
}

/// Cleaning a second time changes nothing, and a cleaned plan keeps its
/// date, its category count, names and order, holds only incomplete tasks,
/// and has both schedule lists empty. A plan without a section keeps none.
pub proof fn lemma_clean_plan(p: PlanV)
    ensures
        clean_plan(clean_plan(p)) == clean_plan(p),
        clean_plan(p).date == p.date,
        p.tasks is Some <==> clean_plan(p).tasks is Some,
        p.tasks is Some ==> {
            let cs = p.tasks->Some_0;
            let cs2 = clean_plan(p).tasks->Some_0;
            &&& cs2.len() == cs.len()
            &&& forall|i: int| 0 <= i < cs.len() ==> (#[trigger] cs2[i]).name == cs[i].name
            &&& forall|i: int, j: int|
                0 <= i < cs2.len() && 0 <= j < cs2[i].tasks.len() ==> (#[trigger] cs2[i].tasks[j]).status
                    is Incomplete
        },
        p.schedule is Some <==> clean_plan(p).schedule is Some,
        p.schedule is Some ==> clean_plan(p).schedule->Some_0.planned.len() == 0 && clean_plan(
            p,
        ).schedule->Some_0.actual.len() == 0,
{
    match p.tasks {
        Some(cs) => {
            let cs2 = clean_list(cs);
            assert forall|i: int| 0 <= i < cs2.len() implies clean_list(cs2)[i] == cs2[i] by {
                assert(clean_list(cs2)[i] == clean_cat(cs2[i]));
                assert(cs2[i] == clean_cat(cs[i]));
                lemma_keep_incomplete_idempotent(cs[i].tasks);
                assert(clean_cat(clean_cat(cs[i])) =~= clean_cat(cs[i]));
            }
            assert(clean_list(cs2) =~= cs2);
            assert forall|i: int, j: int|
                0 <= i < cs2.len() && 0 <= j < cs2[i].tasks.len() implies (#[trigger] cs2[i].tasks[j]).status
                is Incomplete by {
                assert(cs2[i] == clean_cat(cs[i]));
                lemma_keep_incomplete_all(cs[i].tasks);
            }
        },
        None => {},
    }
}

/// A plan with every complete task removed, the rest untouched.
pub open spec fn strip_complete(p: PlanV) -> PlanV {
    PlanV {
        date: p.date,
        tasks: match p.tasks {
            Some(cs) => Some(clean_list(cs)),
            None => None,
        },
        schedule: p.schedule,
    }
}

/// Removing the complete tasks does not change a category's rendering.
proof fn lemma_md_tasks_skip_complete(ts: Seq<TaskV>)
    ensures
        md_tasks(keep_incomplete(ts)) == md_tasks(ts),
    decreases ts.len(),
{
    if ts.len() == 0 {
    } else {
        lemma_md_tasks_skip_complete(ts.drop_first());
        let k = keep_incomplete(ts);
        if ts[0].status is Incomplete {
            assert(k == seq![ts[0]] + keep_incomplete(ts.drop_first()));
            assert(k[0] == ts[0]);
            assert(k.drop_first() =~= keep_incomplete(ts.drop_first()));
            assert(md_tasks(k) == md_task(ts[0]) + md_tasks(keep_incomplete(ts.drop_first())));
        } else {
            assert(k == keep_incomplete(ts.drop_first()));
            assert(md_task(ts[0]) =~= Seq::<char>::empty());
            assert(md_tasks(ts) =~= md_tasks(ts.drop_first()));
        }
    }
}

/// Removing the complete tasks does not change the categories' rendering.
proof fn lemma_md_cats_skip_complete(cs: Seq<CatV>)
    ensures
        md_cats(clean_list(cs)) == md_cats(cs),
    decreases cs.len(),
{
    if cs.len() == 0 {
        assert(clean_list(cs) =~= Seq::<CatV>::empty());
    } else {
        lemma_md_cats_skip_complete(cs.drop_first());
        let c2 = clean_list(cs);
        assert(c2[0] == clean_cat(cs[0]));
        assert(c2.drop_first() =~= clean_list(cs.drop_first()));
        lemma_md_tasks_skip_complete(cs[0].tasks);
        assert(md_cat(clean_cat(cs[0])) =~= md_cat(cs[0]));
        assert(md_cats(c2) == md_cat(c2[0]) + md_cats(c2.drop_first()));
    }
}

/// The serializer never emits a complete task line: a plan renders exactly
/// as the same plan with every complete task removed, cleaned or not.
pub proof fn lemma_to_markdown_skips_complete(p: PlanV)
    ensures
        md_plan(strip_complete(p)) == md_plan(p),
{
    match p.tasks {
        Some(cs) => {
            lemma_md_cats_skip_complete(cs);
        },
        None => {},
    }
}

/// A bare text leaf.
pub open spec fn text_leaf(s: Seq<char>) -> NodeV {
    NodeV::Text { content: s }
}

/// The list item a serialized incomplete task reads back as.
pub open spec fn canonical_task_item(t: TaskV) -> NodeV {
    NodeV::Item { children: seq![text_leaf("[ ] "@ + t.description)] }
}

/// The list item a serialized category reads back as: its name as a
/// paragraph, its tasks as a nested list.
pub open spec fn canonical_cat_item(c: CatV) -> NodeV {
    NodeV::Item {
        children: seq![
            NodeV::Paragraph { children: seq![text_leaf(c.name)] },
            NodeV::List { children: c.tasks.map_values(|t: TaskV| canonical_task_item(t)) },
        ],
    }
}

/// The list item a serialized event reads back as.
pub open spec fn canonical_event_item(e: EventV) -> NodeV {
    NodeV::Item { children: seq![text_leaf(time_str(e.start) + "\t"@ + e.description)] }
}

/// The nested list a serialized event list reads back as.
pub open spec fn canonical_event_list(evs: Seq<EventV>) -> NodeV {
    NodeV::List { children: evs.map_values(|e: EventV| canonical_event_item(e)) }
}

/// The list item a serialized schedule sub-section reads back as.
pub open spec fn canonical_sched_item(label: Seq<char>, evs: Seq<EventV>) -> NodeV {
    NodeV::Item {
        children: seq![
            NodeV::Paragraph { children: seq![text_leaf(label)] },
            canonical_event_list(evs),
        ],
    }
}

/// The list node a serialized task section reads back as.
pub open spec fn canonical_task_list(cs: Seq<CatV>) -> NodeV {
    NodeV::List { children: cs.map_values(|c: CatV| canonical_cat_item(c)) }
}

/// The list node a serialized schedule section reads back as.
pub open spec fn canonical_sched_list(s: SchedV) -> NodeV {
    NodeV::List {
        children: seq![
            canonical_sched_item("Planned"@, s.planned),
            canonical_sched_item("Actual"@, s.actual),
        ],
    }
}

/// The block tree a serialized plan reads back as, with each written
/// heading, bullet and line standing as its node.
pub open spec fn canonical_tree(p: PlanV) -> NodeV {
    NodeV::Container {
        children: seq![
            NodeV::Heading { level: 1, children: seq![text_leaf(date_str(p.date))] },
            NodeV::Paragraph {
                children: seq![text_leaf(weekday_name(p.date.day_of_week()))],
            },
        ] + (match p.tasks {
            Some(cs) => seq![
                NodeV::Heading { level: 2, children: seq![text_leaf("Tasks"@)] },
                canonical_task_list(cs),
            ],
            None => Seq::empty(),
        }) + (match p.schedule {
            Some(s) => seq![
                NodeV::Heading { level: 2, children: seq![text_leaf("Schedule"@)] },
                canonical_sched_list(s),
            ],
            None => Seq::empty(),
        }) + seq![NodeV::Heading { level: 2, children: seq![text_leaf("Notes"@)] }],
    }
}

/// A task the serializer could have written: incomplete, its description
/// trimmed at both ends.
pub open spec fn tidy_task(t: TaskV) -> bool {
    &&& t.status is Incomplete
    &&& trim_spec(t.description) == t.description
}

/// A category the serializer could have written: a trimmed name and tidy
/// tasks.
pub open spec fn tidy_cat(c: CatV) -> bool {
    &&& trim_spec(c.name) == c.name
    &&& forall|j: int| 0 <= j < c.tasks.len() ==> tidy_task(#[trigger] c.tasks[j])
}

/// An event description that survives a read-back: non-empty, free of tabs,
/// not ending in whitespace.
pub open spec fn tidy_event(e: EventV) -> bool {
    &&& e.description.len() > 0
    &&& forall|i: int| 0 <= i < e.description.len() ==> #[trigger] e.description[i] != '\t'
    &&& !crate::text::is_ws(e.description.last())
}

/// Every event is tidy.
pub open spec fn tidy_events(evs: Seq<EventV>) -> bool {
    forall|i: int| 0 <= i < evs.len() ==> tidy_event(#[trigger] evs[i])
}

/// A plan whose serialized form reads back in full: every task incomplete
/// and trimmed, every event tidy, and no schedule without a task section,
/// since the scan looks for the sections in their fixed order.
pub open spec fn tidy_plan(p: PlanV) -> bool {
    &&& match p.tasks {
        Some(cs) => forall|i: int| 0 <= i < cs.len() ==> tidy_cat(#[trigger] cs[i]),
        None => true,
    }
    &&& match p.schedule {
        Some(s) => p.tasks is Some && tidy_events(s.planned) && tidy_events(s.actual),
        None => true,
    }
}

/// A string that neither starts nor ends in whitespace trims to itself.
proof fn lemma_trim_stable(s: Seq<char>)
    requires
        s.len() > 0 ==> !crate::text::is_ws(s[0]) && !crate::text::is_ws(s.last()),
    ensures
        trim_spec(s) == s,
{
}

/// The text of a node with one text leaf is that text, trimmed.
proof fn lemma_leaf_text(s: Seq<char>)
    ensures
        texts_of_one(s) == s,
{
    assert(seq![text_leaf(s)].drop_first() =~= Seq::<NodeV>::empty());
    assert(seq![text_leaf(s)][0] == text_leaf(s));
    assert(crate::node::text_of(text_leaf(s)) == s);
    assert(crate::node::texts_of(Seq::<NodeV>::empty()) == Seq::<char>::empty());
    assert(crate::node::texts_of(seq![text_leaf(s)]) == s + Seq::<char>::empty());
    assert(s + Seq::<char>::empty() =~= s);
}

/// The flattened, untrimmed text of a single text leaf.
pub open spec fn texts_of_one(s: Seq<char>) -> Seq<char> {
    crate::node::texts_of(seq![text_leaf(s)])
}

/// A serialized task item reads back as its task.
proof fn lemma_task_item_round_trip(t: TaskV)
    requires
        tidy_task(t),
    ensures
        crate::tasks::task_of_text(node_text(canonical_task_item(t))) == t,
{
    reveal_strlit("[ ] ");
    reveal_strlit("[ ]");
    reveal_strlit("[x]");
    let line = "[ ] "@ + t.description;
    lemma_leaf_text(line);
    assert(node_text(canonical_task_item(t)) == trim_spec(line));
    assert(line[0] == '[');
    if t.description.len() == 0 {
        assert(line =~= "[ ] "@);
        assert(crate::text::is_ws(line.last()));
        assert(!crate::text::is_ws(line[0]));
        assert(trim_spec(line) == trim_spec(line.drop_last()));
        let stripped = line.drop_last();
        assert(stripped =~= "[ ]"@);
        lemma_trim_stable(stripped);
        assert(trim_spec(line) == "[ ]"@);
        assert(crate::tasks::task_of_text("[ ]"@) == t) by {
            assert(!crate::text::has_prefix("[ ]"@, "[x]"@)) by {
                if crate::text::has_prefix("[ ]"@, "[x]"@) {
                    assert("[ ]"@.subrange(0, 3)[1] == "[ ]"@[1]);
                }
            }
            assert(crate::text::has_prefix("[ ]"@, "[ ]"@)) by {
                assert("[ ]"@.subrange(0, 3) =~= "[ ]"@);
            }
            let rest = "[ ]"@.subrange(3, 3);
            assert(rest =~= Seq::<char>::empty());
            assert(crate::text::strip_all("[ ]"@, "[ ]"@) == crate::text::strip_all(
                rest,
                "[ ]"@,
            ));
            assert(crate::text::strip_all(rest, "[ ]"@) == rest);
            assert(crate::text::strip_all(rest, "[x]"@) == rest);
            assert(trim_spec(rest) == rest);
            assert((TaskV { description: rest, status: TaskStatus::Incomplete }) =~= t);
        }
    } else {
        crate::text::lemma_trim_stable_ends(t.description);
        assert(line.last() == t.description.last());
        lemma_trim_stable(line);
        crate::tasks::lemma_task_text_round_trip(t.description);
        assert((TaskV { description: t.description, status: TaskStatus::Incomplete }) =~= t);
    }
}

/// The trailing notes heading names neither section, so the scan skips it.
proof fn lemma_notes_heading_is_neither()
    ensures
        trim_spec("Notes"@) == "Notes"@,
        lower_seq("Notes"@) != "tasks"@,
        lower_seq("Notes"@) != "schedule"@,
{
    reveal_strlit("Notes");
    reveal_strlit("tasks");
    reveal_strlit("schedule");
    assert forall|i: int|
        0 <= i < "Notes"@.len() implies !crate::text::is_ws(#[trigger] "Notes"@[i]) by {}
    crate::text::lemma_trim_no_ws("Notes"@);
    assert(lower_seq("Notes"@).len() == 5);
    assert(lower_seq("Notes"@) != "tasks"@) by {
        assert(lower_seq("Notes"@)[0] == lower_char('N'));
        assert(lower_char('N') == 'n');
        assert("tasks"@[0] == 't');
    }
    assert(lower_seq("Notes"@) != "schedule"@) by {
        assert("schedule"@.len() == 8);
    }
}

/// A sequence of serialized task items reads back as the tasks, in order.
proof fn lemma_task_items_round_trip(ts: Seq<TaskV>)
    requires
        forall|j: int| 0 <= j < ts.len() ==> tidy_task(#[trigger] ts[j]),
    ensures
        crate::tasks::tasks_of_items(ts.map_values(|t: TaskV| canonical_task_item(t))) == ts,
    decreases ts.len(),
{
    let m = ts.map_values(|t: TaskV| canonical_task_item(t));
    if ts.len() == 0 {
        assert(m =~= Seq::<NodeV>::empty());
        assert(crate::tasks::tasks_of_items(m) =~= ts);
    } else {
        assert(m[0] == canonical_task_item(ts[0]));
        lemma_task_item_round_trip(ts[0]);
        assert(m.drop_first() =~= ts.drop_first().map_values(
            |t: TaskV| canonical_task_item(t),
        ));
        assert(forall|j: int|
            0 <= j < ts.drop_first().len() ==> tidy_task(#[trigger] ts.drop_first()[j]));
        lemma_task_items_round_trip(ts.drop_first());
        assert(crate::tasks::tasks_of_items(m) == seq![ts[0]] + crate::tasks::tasks_of_items(
            m.drop_first(),
        ));
        assert(crate::tasks::tasks_of_items(m) =~= ts);
    }
}

/// A serialized category item reads back as its category.
proof fn lemma_cat_item_round_trip(c: CatV)
    requires
        tidy_cat(c),
    ensures
        crate::tasks::cat_of_node(canonical_cat_item(c)) == c,
{
    let para = NodeV::Paragraph { children: seq![text_leaf(c.name)] };
    let list = NodeV::List {
        children: c.tasks.map_values(|t: TaskV| canonical_task_item(t)),
    };
    let kids = children_of(canonical_cat_item(c));
    assert(kids == seq![para, list]);
    let acc0 = CatV { name: Seq::empty(), tasks: Seq::empty() };
    lemma_leaf_text(c.name);
    assert(node_text(para) == trim_spec(c.name));
    let acc1 = crate::tasks::cat_step(acc0, para);
    assert(acc1.name =~= c.name);
    assert(acc1.tasks =~= Seq::<TaskV>::empty());
    lemma_task_items_round_trip(c.tasks);
    let acc2 = crate::tasks::cat_step(acc1, list);
    assert(acc2.tasks =~= c.tasks);
    assert(kids[0] == para);
    assert(kids.drop_first() =~= seq![list]);
    assert(seq![list][0] == list);
    assert(seq![list].drop_first() =~= Seq::<NodeV>::empty());
    assert(crate::tasks::cat_fold(acc2, Seq::<NodeV>::empty()) == acc2);
    assert(crate::tasks::cat_fold(acc1, seq![list]) == acc2);
    assert(crate::tasks::cat_of_node(canonical_cat_item(c)) == acc2);
    assert(acc2 =~= c);
}

/// A sequence of serialized category items reads back as the categories.
proof fn lemma_cat_items_round_trip(cs: Seq<CatV>)
    requires
        forall|i: int| 0 <= i < cs.len() ==> tidy_cat(#[trigger] cs[i]),
    ensures
        crate::tasks::cats_of_children(cs.map_values(|c: CatV| canonical_cat_item(c))) == cs,
    decreases cs.len(),
{
    let m = cs.map_values(|c: CatV| canonical_cat_item(c));
    if cs.len() == 0 {
        assert(m =~= Seq::<NodeV>::empty());
        assert(crate::tasks::cats_of_children(m) =~= cs);
    } else {
        assert(m[0] == canonical_cat_item(cs[0]));
        lemma_cat_item_round_trip(cs[0]);
        assert(m.drop_first() =~= cs.drop_first().map_values(
            |c: CatV| canonical_cat_item(c),
        ));
        assert(forall|i: int|
            0 <= i < cs.drop_first().len() ==> tidy_cat(#[trigger] cs.drop_first()[i]));
        lemma_cat_items_round_trip(cs.drop_first());
        assert(crate::tasks::cats_of_children(m) == seq![cs[0]]
            + crate::tasks::cats_of_children(m.drop_first()));
        assert(crate::tasks::cats_of_children(m) =~= cs);
    }
}

/// A serialized event item reads back as its event.
proof fn lemma_event_item_round_trip(e: EventV)
    requires
        e.start.wf(),
        tidy_event(e),
    ensures
        crate::schedule::event_of_item(canonical_event_item(e)) == Some(e),
{
    reveal_strlit("\t");
    let line = time_str(e.start) + "\t"@ + e.description;
    lemma_leaf_text(line);
    assert(node_text(canonical_event_item(e)) == trim_spec(line));
    crate::text::lemma_pad2_val(e.start.hour as int);
    assert(line[0] == crate::text::pad2(e.start.hour as int)[0]);
    assert(crate::text::is_digit(line[0]));
    assert(!crate::text::is_ws(line[0]));
    assert(line.last() == e.description.last());
    lemma_trim_stable(line);
    crate::schedule::lemma_event_text_round_trip(e.start, e.description);
    assert((EventV { description: e.description, start: e.start }) =~= e);
}

/// A sequence of serialized event items reads back as the events, in order.
proof fn lemma_event_items_round_trip(evs: Seq<EventV>)
    requires
        tidy_events(evs),
        events_wf(evs),
    ensures
        crate::schedule::events_of_items(evs.map_values(|e: EventV| canonical_event_item(e)))
            == evs,
    decreases evs.len(),
{
    let m = evs.map_values(|e: EventV| canonical_event_item(e));
    if evs.len() == 0 {
        assert(m =~= Seq::<NodeV>::empty());
        assert(crate::schedule::events_of_items(m) =~= evs);
    } else {
        assert(m[0] == canonical_event_item(evs[0]));
        lemma_event_item_round_trip(evs[0]);
        assert(m.drop_first() =~= evs.drop_first().map_values(
            |e: EventV| canonical_event_item(e),
        ));
        assert(tidy_events(evs.drop_first())) by {
            assert(forall|i: int|
                0 <= i < evs.drop_first().len() ==> tidy_event(#[trigger] evs.drop_first()[i]));
        }
        assert(events_wf(evs.drop_first())) by {
            assert(forall|i: int|
                0 <= i < evs.drop_first().len() ==> (#[trigger] evs.drop_first()[i]).start.wf());
        }
        lemma_event_items_round_trip(evs.drop_first());
        assert(crate::schedule::events_of_items(m) == seq![evs[0]]
            + crate::schedule::events_of_items(m.drop_first()));
        assert(crate::schedule::events_of_items(m) =~= evs);
    }
}

/// A serialized schedule section reads back as the schedule.
proof fn lemma_sched_list_round_trip(s: SchedV)
    requires
        tidy_events(s.planned),
        tidy_events(s.actual),
        sched_wf(s),
    ensures
        parse_schedule_spec(canonical_sched_list(s)) == Ok::<SchedV, Seq<char>>(s),
{
    crate::schedule::lemma_canonical_labels();
    let para_p = NodeV::Paragraph { children: seq![text_leaf("Planned"@)] };
    let list_p = canonical_event_list(s.planned);
    let inner_p = seq![para_p, list_p];
    let para_a = NodeV::Paragraph { children: seq![text_leaf("Actual"@)] };
    let list_a = canonical_event_list(s.actual);
    let inner_a = seq![para_a, list_a];
    let item_p = canonical_sched_item("Planned"@, s.planned);
    let item_a = canonical_sched_item("Actual"@, s.actual);
    let kids = children_of(canonical_sched_list(s));
    assert(kids == seq![item_p, item_a]);
    let acc0 = SchedAcc {
        sec: crate::schedule::ScheduleSection::Planned,
        planned: Seq::<EventV>::empty(),
        actual: Seq::<EventV>::empty(),
    };
    lemma_leaf_text("Planned"@);
    lemma_leaf_text("Actual"@);
    assert(node_text(para_p) == "Planned"@);
    assert(node_text(para_a) == "Actual"@);
    lemma_event_items_round_trip(s.planned);
    lemma_event_items_round_trip(s.actual);

    let acc1 = SchedAcc {
        sec: crate::schedule::ScheduleSection::Planned,
        planned: acc0.planned,
        actual: acc0.actual,
    };
    assert(inner_p[0] == para_p);
    assert(inner_p.drop_first() =~= seq![list_p]);
    assert(seq![list_p][0] == list_p);
    assert(seq![list_p].drop_first() =~= Seq::<NodeV>::empty());
    let acc_p = crate::schedule::add_events(acc1, s.planned);
    assert(crate::schedule::events_of_items(s.planned.map_values(
        |e: EventV| canonical_event_item(e),
    )) == s.planned);
    assert(crate::schedule::item_fold(acc_p, Seq::<NodeV>::empty()) == Ok::<
        SchedAcc,
        Seq<char>,
    >(acc_p));
    assert(crate::schedule::item_fold(acc1, seq![list_p]) == Ok::<SchedAcc, Seq<char>>(acc_p));
    assert(crate::schedule::item_fold(acc0, inner_p) == Ok::<SchedAcc, Seq<char>>(acc_p));

    let acc2 = SchedAcc {
        sec: crate::schedule::ScheduleSection::Actual,
        planned: acc_p.planned,
        actual: acc_p.actual,
    };
    assert(inner_a[0] == para_a);
    assert(inner_a.drop_first() =~= seq![list_a]);
    assert(seq![list_a][0] == list_a);
    assert(seq![list_a].drop_first() =~= Seq::<NodeV>::empty());
    let acc_a = crate::schedule::add_events(acc2, s.actual);
    assert(crate::schedule::events_of_items(s.actual.map_values(
        |e: EventV| canonical_event_item(e),
    )) == s.actual);
    assert(crate::schedule::item_fold(acc_a, Seq::<NodeV>::empty()) == Ok::<
        SchedAcc,
        Seq<char>,
    >(acc_a));
    assert(crate::schedule::item_fold(acc2, seq![list_a]) == Ok::<SchedAcc, Seq<char>>(acc_a));
    assert(crate::schedule::item_fold(acc_p, inner_a) == Ok::<SchedAcc, Seq<char>>(acc_a));

    assert(kids[0] == item_p);
    assert(kids.drop_first() =~= seq![item_a]);
    assert(seq![item_a][0] == item_a);
    assert(seq![item_a].drop_first() =~= Seq::<NodeV>::empty());
    assert(crate::schedule::sched_fold(acc_a, Seq::<NodeV>::empty()) == Ok::<
        SchedAcc,
        Seq<char>,
    >(acc_a));
    assert(crate::schedule::sched_fold(acc_p, seq![item_a]) == Ok::<SchedAcc, Seq<char>>(acc_a));
    assert(crate::schedule::sched_fold(acc0, kids) == Ok::<SchedAcc, Seq<char>>(acc_a));
    assert((SchedV { planned: acc_a.planned, actual: acc_a.actual }) =~= s);
}

/// Reading back the canonical block tree of a serialized plan yields the
/// plan. This is the whole round trip except the text-to-tree step that the
/// outside markdown parser performs: `to_markdown` writes exactly the text
/// whose blocks `canonical_tree` lays out, and scanning those blocks
/// restores every field. It holds of every well-formed, tidy plan — all
/// tasks incomplete with trimmed names and descriptions, all events tidy,
/// and no schedule section without a task section, since the scan looks for
/// the sections in their fixed order.
#[verifier::rlimit(100)]
#[verifier::spinoff_prover]
pub proof fn lemma_canonical_round_trip(p: PlanV)
    requires
        plan_wf(p),
        tidy_plan(p),
    ensures
        from_markdown_spec(canonical_tree(p)) == Ok::<PlanV, PlanErrorV>(p),
{
    let h1 = NodeV::Heading { level: 1, children: seq![text_leaf(date_str(p.date))] };
    let wd = NodeV::Paragraph { children: seq![text_leaf(weekday_name(p.date.day_of_week()))] };
    let h_tasks = NodeV::Heading { level: 2, children: seq![text_leaf("Tasks"@)] };
    let h_sched = NodeV::Heading { level: 2, children: seq![text_leaf("Schedule"@)] };
    let h_notes = NodeV::Heading { level: 2, children: seq![text_leaf("Notes"@)] };
    let kids = children_of(canonical_tree(p));

    crate::date::lemma_date_heading_round_trip(p.date);
    lemma_leaf_text(date_str(p.date));
    lemma_leaf_text(weekday_name(p.date.day_of_week()));
    lemma_leaf_text("Tasks"@);
    lemma_leaf_text("Schedule"@);
    lemma_leaf_text("Notes"@);
    lemma_canonical_headings();
    lemma_notes_heading_is_neither();
    assert(node_text(h1) == date_str(p.date));
    assert(node_text(h_tasks) == "Tasks"@);
    assert(node_text(h_sched) == "Schedule"@);
    assert(node_text(h_notes) == "Notes"@);

    let acc1 = ScanAcc {
        state: ScanState::DateFound,
        date_text: date_str(p.date),
        tasks: None,
        schedule: None,
    };
    assert(scan_step(initial_scan(), h1) == Ok::<ScanAcc, Seq<char>>(acc1));
    assert(scan_step(acc1, wd) == Ok::<ScanAcc, Seq<char>>(acc1));

    match (p.tasks, p.schedule) {
        (Some(cs), Some(s)) => {
            assert(kids =~= seq![h1, wd, h_tasks, canonical_task_list(cs), h_sched,
                canonical_sched_list(s), h_notes]);
            lemma_cat_items_round_trip(cs);
            lemma_sched_list_round_trip(s);
            let acc2 = ScanAcc {
                state: ScanState::TaskSectionStart,
                date_text: acc1.date_text,
                tasks: acc1.tasks,
                schedule: acc1.schedule,
            };
            assert(scan_step(acc1, h_tasks) == Ok::<ScanAcc, Seq<char>>(acc2));
            let acc3 = ScanAcc {
                state: ScanState::TaskSectionEnd,
                date_text: acc2.date_text,
                tasks: Some(cs),
                schedule: acc2.schedule,
            };
            assert(task_list_of(canonical_task_list(cs)) == cs);
            assert(scan_step(acc2, canonical_task_list(cs)) == Ok::<ScanAcc, Seq<char>>(acc3));
            let acc4 = ScanAcc {
                state: ScanState::ScheduleSectionStart,
                date_text: acc3.date_text,
                tasks: acc3.tasks,
                schedule: acc3.schedule,
            };
            assert(scan_step(acc3, h_sched) == Ok::<ScanAcc, Seq<char>>(acc4));
            let acc5 = ScanAcc {
                state: ScanState::ScheduleSectionEnd,
                date_text: acc4.date_text,
                tasks: acc4.tasks,
                schedule: Some(s),
            };
            assert(scan_step(acc4, canonical_sched_list(s)) == Ok::<ScanAcc, Seq<char>>(acc5));
            assert(scan_step(acc5, h_notes) == Ok::<ScanAcc, Seq<char>>(acc5));
            let s1 = kids.drop_first();
            let s2 = s1.drop_first();
            let s3 = s2.drop_first();
            let s4 = s3.drop_first();
            let s5 = s4.drop_first();
            let s6 = s5.drop_first();
            assert(kids[0] == h1 && s1[0] == wd && s2[0] == h_tasks && s3[0]
                == canonical_task_list(cs) && s4[0] == h_sched && s5[0] == canonical_sched_list(s)
                && s6[0] == h_notes);
            assert(s6.drop_first() =~= Seq::<NodeV>::empty());
            assert(scan_fold(acc5, Seq::<NodeV>::empty()) == Ok::<ScanAcc, Seq<char>>(acc5));
            assert(scan_fold(acc5, s6) == Ok::<ScanAcc, Seq<char>>(acc5));
            assert(scan_fold(acc4, s5) == Ok::<ScanAcc, Seq<char>>(acc5));
            assert(scan_fold(acc3, s4) == Ok::<ScanAcc, Seq<char>>(acc5));
            assert(scan_fold(acc2, s3) == Ok::<ScanAcc, Seq<char>>(acc5));
            assert(scan_fold(acc1, s2) == Ok::<ScanAcc, Seq<char>>(acc5));
            assert(scan_fold(acc1, s1) == Ok::<ScanAcc, Seq<char>>(acc5));
            assert(scan_fold(initial_scan(), kids) == Ok::<ScanAcc, Seq<char>>(acc5));
            assert((PlanV { date: p.date, tasks: acc5.tasks, schedule: acc5.schedule }) =~= p);
        },
        (Some(cs), None) => {
            assert(kids =~= seq![h1, wd, h_tasks, canonical_task_list(cs), h_notes]);
            lemma_cat_items_round_trip(cs);
            let acc2 = ScanAcc {
                state: ScanState::TaskSectionStart,
                date_text: acc1.date_text,
                tasks: acc1.tasks,
                schedule: acc1.schedule,
            };
            assert(scan_step(acc1, h_tasks) == Ok::<ScanAcc, Seq<char>>(acc2));
            let acc3 = ScanAcc {
                state: ScanState::TaskSectionEnd,
                date_text: acc2.date_text,
                tasks: Some(cs),
                schedule: acc2.schedule,
            };
            assert(task_list_of(canonical_task_list(cs)) == cs);
            assert(scan_step(acc2, canonical_task_list(cs)) == Ok::<ScanAcc, Seq<char>>(acc3));
            assert(lower_seq(trim_spec(node_text(h_notes))) != "schedule"@);
            assert(scan_step(acc3, h_notes) == Ok::<ScanAcc, Seq<char>>(acc3));
            let s1 = kids.drop_first();
            let s2 = s1.drop_first();
            let s3 = s2.drop_first();
            let s4 = s3.drop_first();
            assert(kids[0] == h1 && s1[0] == wd && s2[0] == h_tasks && s3[0]
                == canonical_task_list(cs) && s4[0] == h_notes);
            assert(s4.drop_first() =~= Seq::<NodeV>::empty());
            assert(scan_fold(acc3, Seq::<NodeV>::empty()) == Ok::<ScanAcc, Seq<char>>(acc3));
            assert(scan_fold(acc3, s4) == Ok::<ScanAcc, Seq<char>>(acc3));
            assert(scan_fold(acc2, s3) == Ok::<ScanAcc, Seq<char>>(acc3));
            assert(scan_fold(acc1, s2) == Ok::<ScanAcc, Seq<char>>(acc3));
            assert(scan_fold(acc1, s1) == Ok::<ScanAcc, Seq<char>>(acc3));
            assert(scan_fold(initial_scan(), kids) == Ok::<ScanAcc, Seq<char>>(acc3));
            assert((PlanV { date: p.date, tasks: acc3.tasks, schedule: acc3.schedule }) =~= p);
        },
        (None, None) => {
            assert(kids =~= seq![h1, wd, h_notes]);
            assert(lower_seq(trim_spec(node_text(h_notes))) != "tasks"@);
            assert(scan_step(acc1, h_notes) == Ok::<ScanAcc, Seq<char>>(acc1));
            let s1 = kids.drop_first();
            let s2 = s1.drop_first();
            assert(kids[0] == h1 && s1[0] == wd && s2[0] == h_notes);
            assert(s2.drop_first() =~= Seq::<NodeV>::empty());
            assert(scan_fold(acc1, Seq::<NodeV>::empty()) == Ok::<ScanAcc, Seq<char>>(acc1));
            assert(scan_fold(acc1, s2) == Ok::<ScanAcc, Seq<char>>(acc1));
            assert(scan_fold(acc1, s1) == Ok::<ScanAcc, Seq<char>>(acc1));
            assert(scan_fold(initial_scan(), kids) == Ok::<ScanAcc, Seq<char>>(acc1));
            assert((PlanV { date: p.date, tasks: acc1.tasks, schedule: acc1.schedule }) =~= p);
        },
        (None, Some(_)) => {
            assert(false);
        },
    }
}

} // verus!
