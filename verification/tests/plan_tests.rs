use planner::date::Date;
use planner::error::PlanError;
use planner::plan::Plan;
use planner::tasks::TaskStatus;

#[test]
fn minimal_export_md() {
    let date = Date::new(2000, 1, 1).unwrap();
    let plan = Plan::new(date, None, None);
    let md = plan.to_markdown();
    assert_eq!(md, "# 01/01/2000\nSaturday\n\n## Notes\n\n");
}

#[test]
fn minimal_import_tasks() {
    let md = "# 01/01/2000\nSaturday\n\n## Tasks\n\n- **Personal**\n  - [ ] TODO\n  - [x] Already done\n";

    let plan = Plan::from_markdown(md).unwrap();
    let tasks = plan.tasks().as_ref().unwrap();

    assert_eq!(tasks.categories().len(), 1);

    let personal_tasks = tasks.categories().first().unwrap();
    assert_eq!(personal_tasks.name(), "Personal");
    assert_eq!(personal_tasks.tasks().len(), 2);

    let todo = personal_tasks.tasks().first().unwrap();
    assert_eq!(todo.description(), "TODO");
    assert_eq!(todo.status(), &TaskStatus::Incomplete);

    let already_done = personal_tasks.tasks().last().unwrap();
    assert_eq!(already_done.description(), "Already done");
    assert_eq!(already_done.status(), &TaskStatus::Complete);
}

const EXAMPLE_DOC: &str = "# 03/15/2024\nFriday\n\n## Tasks\n- **Personal**\n  - [ ] Buy milk\n  - [x] Call bank\n\n## Schedule\n- Planned\n  - 0900\tStandup\n- Actual\n  - 0905\tStandup\n";

#[test]
fn example_document_parses_exactly() {
    let plan = Plan::from_markdown(EXAMPLE_DOC).unwrap();

    assert_eq!(plan.date(), Date::new(2024, 3, 15).unwrap());
    assert_eq!(plan.day(), "Friday");

    let tasks = plan.tasks().as_ref().unwrap();
    assert_eq!(tasks.categories().len(), 1);
    let personal = &tasks.categories()[0];
    assert_eq!(personal.name(), "Personal");
    assert_eq!(personal.tasks().len(), 2);
    assert_eq!(personal.tasks()[0].description(), "Buy milk");
    assert_eq!(personal.tasks()[0].status(), &TaskStatus::Incomplete);
    assert_eq!(personal.tasks()[1].description(), "Call bank");
    assert_eq!(personal.tasks()[1].status(), &TaskStatus::Complete);

    let schedule = plan.schedule().as_ref().unwrap();
    assert_eq!(schedule.planned().len(), 1);
    assert_eq!(schedule.planned()[0].start().hour, 9);
    assert_eq!(schedule.planned()[0].start().minute, 0);
    assert_eq!(schedule.planned()[0].description(), "Standup");
    assert_eq!(schedule.actual().len(), 1);
    assert_eq!(schedule.actual()[0].start().hour, 9);
    assert_eq!(schedule.actual()[0].start().minute, 5);
    assert_eq!(schedule.actual()[0].description(), "Standup");
}

#[test]
fn round_trip_reproduces_incomplete_plan() {
    let doc = "# 03/15/2024\nFriday\n\n## Tasks\n- **Personal**\n  - [ ] Buy milk\n- **Work**\n  - [ ] Send report\n\n## Schedule\n- Planned\n  - 0900\tStandup\n- Actual\n  - 0905\tStandup\n";
    let plan = Plan::from_markdown(doc).unwrap();
    let md = plan.to_markdown();
    let reparsed = Plan::from_markdown(&md).unwrap();

    assert_eq!(reparsed.date(), plan.date());
    assert_eq!(reparsed.day(), plan.day());

    let t1 = plan.tasks().as_ref().unwrap();
    let t2 = reparsed.tasks().as_ref().unwrap();
    assert_eq!(t1.categories().len(), t2.categories().len());
    for (c1, c2) in t1.categories().iter().zip(t2.categories().iter()) {
        assert_eq!(c1.name(), c2.name());
        assert_eq!(c1.tasks().len(), c2.tasks().len());
        for (a, b) in c1.tasks().iter().zip(c2.tasks().iter()) {
            assert_eq!(a.description(), b.description());
            assert_eq!(a.status(), b.status());
        }
    }

    let s1 = plan.schedule().as_ref().unwrap();
    let s2 = reparsed.schedule().as_ref().unwrap();
    assert_eq!(s1.planned().len(), s2.planned().len());
    assert_eq!(s1.actual().len(), s2.actual().len());
    for (a, b) in s1.planned().iter().zip(s2.planned().iter()) {
        assert_eq!(a.start(), b.start());
        assert_eq!(a.description(), b.description());
    }
    for (a, b) in s1.actual().iter().zip(s2.actual().iter()) {
        assert_eq!(a.start(), b.start());
        assert_eq!(a.description(), b.description());
    }

    // The serialization is canonical: serializing the reparsed plan gives
    // the same text again.
    assert_eq!(reparsed.to_markdown(), md);
}

#[test]
fn clean_is_idempotent_and_empties_schedule() {
    let mut plan = Plan::from_markdown(EXAMPLE_DOC).unwrap();
    plan.clean();
    let once = plan.to_markdown();

    let tasks = plan.tasks().as_ref().unwrap();
    assert_eq!(tasks.categories().len(), 1);
    assert_eq!(tasks.categories()[0].name(), "Personal");
    for task in tasks.categories()[0].tasks().iter() {
        assert_eq!(task.status(), &TaskStatus::Incomplete);
    }
    let schedule = plan.schedule().as_ref().unwrap();
    assert_eq!(schedule.planned().len(), 0);
    assert_eq!(schedule.actual().len(), 0);

    plan.clean();
    let twice = plan.to_markdown();
    assert_eq!(once, twice);
}

#[test]
fn to_markdown_never_emits_complete_tasks() {
    let plan = Plan::from_markdown(EXAMPLE_DOC).unwrap();
    let md = plan.to_markdown();
    assert!(!md.contains("[x]"));
    assert!(!md.contains("Call bank"));
    assert!(md.contains("  - [ ] Buy milk\n"));
}

#[test]
fn malformed_date_heading_is_fatal() {
    let doc = "# 13/40/2024\nFriday\n\n## Notes\n\n";
    let err = Plan::from_markdown(doc).unwrap_err();
    assert_eq!(err, PlanError::DateMissingOrMalformed);
}

#[test]
fn missing_date_heading_is_fatal() {
    let doc = "Some paragraph\n\n## Tasks\n- **Personal**\n  - [ ] TODO\n";
    let err = Plan::from_markdown(doc).unwrap_err();
    assert_eq!(err, PlanError::DateMissingOrMalformed);
}

#[test]
fn bad_schedule_label_is_fatal() {
    let doc = "# 03/15/2024\nFriday\n\n## Tasks\n- **Personal**\n  - [ ] TODO\n\n## Schedule\n- Someday\n  - 0900\tStandup\n";
    let err = Plan::from_markdown(doc).unwrap_err();
    assert!(matches!(err, PlanError::ScheduleLabelMismatch { ref text } if text == "Someday"));
}

#[test]
fn sections_are_optional() {
    let plan = Plan::from_markdown("# 03/15/2024\nFriday\n").unwrap();
    assert!(plan.tasks().is_none());
    assert!(plan.schedule().is_none());
    assert_eq!(plan.date(), Date::new(2024, 3, 15).unwrap());
}

#[test]
fn set_date_changes_only_the_date() {
    let mut plan = Plan::from_markdown(EXAMPLE_DOC).unwrap();
    let date = Date::new(2024, 3, 16).unwrap();
    plan.set_date(date);
    assert_eq!(plan.date(), date);
    assert_eq!(plan.day(), "Saturday");
    assert!(plan.tasks().is_some());
    assert!(plan.schedule().is_some());
    assert!(plan.is_well_formed());
}

#[test]
fn heading_case_and_order_tolerance() {
    // Extra headings are skipped; section titles match case-insensitively.
    let doc = "# 03/15/2024\nFriday\n\n## Diary\n\n## TASKS\n- **Personal**\n  - [ ] TODO\n\n## SCHEDULE\n- Planned\n  - 0900\tStandup\n";
    let plan = Plan::from_markdown(doc).unwrap();
    assert!(plan.tasks().is_some());
    assert!(plan.schedule().is_some());
}
