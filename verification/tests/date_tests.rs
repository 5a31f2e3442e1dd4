use planner::cli::{Command, Options};
use planner::date::Date;
use planner::files::PlanDirectory;
use planner::plan::Plan;

#[test]
fn date_round_trips_through_mdy() {
    let dates = [
        Date::new(2024, 3, 15).unwrap(),
        Date::new(2000, 1, 1).unwrap(),
        Date::new(9999, 12, 31).unwrap(),
        Date::new(1, 1, 1).unwrap(),
        Date::new(2024, 2, 29).unwrap(),
    ];
    for d in dates {
        let rendered = d.to_mdy();
        assert_eq!(Date::parse_mdy(&rendered), Some(d));
    }
    assert_eq!(Date::new(2024, 3, 15).unwrap().to_mdy(), "03/15/2024");
}

#[test]
fn date_parsing_accepts_unpadded_month_and_day() {
    assert_eq!(Date::parse_mdy("3/5/2024"), Some(Date::new(2024, 3, 5).unwrap()));
    assert_eq!(Date::parse_mdy("03/05/2024"), Some(Date::new(2024, 3, 5).unwrap()));
}

#[test]
fn date_parsing_rejects_bad_shapes_and_values() {
    assert_eq!(Date::parse_mdy("13/40/2024"), None);
    assert_eq!(Date::parse_mdy("00/10/2024"), None);
    assert_eq!(Date::parse_mdy("02/30/2024"), None);
    assert_eq!(Date::parse_mdy("02/29/2023"), None);
    assert_eq!(Date::parse_mdy("3/15/24"), None);
    assert_eq!(Date::parse_mdy("3/15/20245"), None);
    assert_eq!(Date::parse_mdy("3-15-2024"), None);
    assert_eq!(Date::parse_mdy("03/15/0000"), None);
    assert_eq!(Date::parse_mdy(""), None);
    assert_eq!(Date::parse_mdy("03/15/2024 "), None);
}

#[test]
fn leap_years_are_respected() {
    assert!(Date::new(2024, 2, 29).is_some());
    assert!(Date::new(2023, 2, 29).is_none());
    assert!(Date::new(1900, 2, 29).is_none());
    assert!(Date::new(2000, 2, 29).is_some());
    assert!(Date::new(2024, 4, 31).is_none());
}

#[test]
fn day_of_week_agrees_with_the_calendar() {
    // The week of 2024-03-10, which ran Sunday through Saturday.
    let expected = [
        (10, "Sunday"),
        (11, "Monday"),
        (12, "Tuesday"),
        (13, "Wednesday"),
        (14, "Thursday"),
        (15, "Friday"),
        (16, "Saturday"),
    ];
    for (day, name) in expected {
        let plan = Plan::new(Date::new(2024, 3, day).unwrap(), None, None);
        assert_eq!(plan.day(), name);
    }
    // Calendar truth across month and century boundaries.
    assert_eq!(Plan::new(Date::new(2000, 1, 1).unwrap(), None, None).day(), "Saturday");
    assert_eq!(Plan::new(Date::new(1999, 12, 31).unwrap(), None, None).day(), "Friday");
    assert_eq!(Plan::new(Date::new(2100, 3, 1).unwrap(), None, None).day(), "Monday");
}

#[test]
fn unicode_whitespace_is_trimmed_from_headings() {
    // The trim strips the whole Unicode white-space set, as `str::trim`
    // does, so a date heading padded with a no-break space still parses.
    let plan = Plan::from_markdown("# 03/15/2024\u{a0}\nFriday\n").unwrap();
    assert_eq!(plan.date(), Date::new(2024, 3, 15).unwrap());
    assert_eq!(planner::text::trim("\u{a0}\u{3000} x \u{2003}"), "x");
}

#[test]
fn plan_file_names_follow_the_date() {
    let d = Date::new(2024, 3, 5).unwrap();
    assert_eq!(PlanDirectory::plan_file_name(d), "2024.03.05.plan.md");
    assert!(PlanDirectory::is_plan_file("2024.03.05.plan.md"));
    assert!(PlanDirectory::is_plan_file("anything.plan.md"));
    assert!(!PlanDirectory::is_plan_file("2024.03.05.plan.txt"));
    assert!(!PlanDirectory::is_plan_file("plan.m"));
}

#[test]
fn directory_keeps_its_path() {
    let dir = PlanDirectory::new(String::from("/home/someone/.planner"));
    assert_eq!(dir.path(), "/home/someone/.planner");
}

#[test]
fn default_command_is_edit() {
    assert_eq!(Options::new(None).command(), Command::Edit);
    assert_eq!(Options::new(Some(Command::View)).command(), Command::View);
    assert_eq!(Options::new(Some(Command::Edit)).command(), Command::Edit);
}
