use bartib::activity::{Activity, ActivityError, Line, Notice};
use bartib::bartib_file::{file_content_text, is_whitespace};
use bartib::format_util::format_duration;
use bartib::getter::get_descriptions_and_projects;
use bartib::manipulation::{cancel, change, continue_last_activity, start, stop, ContinueError};
use bartib::report::{
    create_project_map, create_project_map_at, sum_duration_at, Grouping, Report, ReportGroup, ReportGroupDate,
    ReportGroupDescription,
    ReportGroupProject,
};
use bartib::report_lines::{get_longest_line_info, ReportLine};
use bartib::time::{Duration, Timestamp, MAX_DURATION_NANOS, MAX_TIMESTAMP_SECS, MIN_TIMESTAMP_SECS};
use chrono::NaiveDateTime;

fn at(text: &str) -> Timestamp {
    let dt = NaiveDateTime::parse_from_str(text, "%Y-%m-%d %H:%M").unwrap().and_utc();
    Timestamp::from_parts(dt.timestamp(), dt.timestamp_subsec_nanos()).unwrap()
}

fn stopped(project: &str, description: &str, from: &str, to: &str) -> Activity {
    let mut a = Activity::start(project.to_string(), description.to_string(), Some(at(from))).unwrap();
    a.end = Some(at(to));
    a
}

fn minutes(m: i64) -> Duration {
    Duration::seconds(m * 60)
}

fn running_count(lines: &[Line]) -> usize {
    lines.iter().filter(|l| matches!(&l.activity, Ok(a) if a.end.is_none())).count()
}

#[test]
fn format_duration_texts() {
    assert_eq!(format_duration(&Duration::zero()), "0m");
    assert_eq!(format_duration(&Duration::seconds(59)), "0m");
    assert_eq!(format_duration(&Duration::seconds(61)), "01m");
    assert_eq!(format_duration(&minutes(10)), "10m");
    assert_eq!(format_duration(&minutes(125)), "2h 05m");
    assert_eq!(format_duration(&minutes(25 * 60)), "25h 00m");
    assert_eq!(format_duration(&minutes(-30)), "0m");
}

#[test]
fn duration_range_and_parts() {
    assert!(Duration::from_nanos(MAX_DURATION_NANOS).is_some());
    assert!(Duration::from_nanos(MAX_DURATION_NANOS + 1).is_none());
    let max = Duration::from_nanos(MAX_DURATION_NANOS).unwrap();
    assert!(max.checked_add(Duration::seconds(1)).is_none());
    assert_eq!(minutes(90).num_minutes(), 90);
    assert_eq!(minutes(90).num_hours(), 1);
    assert_eq!(Duration::from_nanos(-1_500_000_000).unwrap().num_seconds(), -1);
}

#[test]
fn timestamp_range_and_order() {
    assert!(Timestamp::from_parts(0, 1_000_000_000).is_none());
    assert!(Timestamp::from_parts(i64::MAX, 0).is_none());
    let a = at("2021-09-01 15:00");
    let b = at("2021-09-01 15:20");
    assert!(a.is_before(&b));
    assert!(!b.is_before(&a));
    assert_eq!(b.signed_duration_since(&a).num_seconds(), 1200);
    assert_eq!(a.signed_duration_since(&b).num_seconds(), -1200);
    assert_eq!(a.date_string(), "2021-09-01");
}

#[test]
fn stop_stops_every_running_activity_at_the_given_time() {
    let mut lines = Vec::new();
    start(&mut lines, "p1", "d1", Some(at("2021-09-01 09:00")));
    lines.push(Line::for_activity(Activity::start("p2".to_string(), "d2".to_string(), Some(at("2021-09-01 09:30"))).unwrap()));
    let notices = stop(&mut lines, Some(at("2021-09-01 10:00"))).unwrap();
    assert_eq!(notices.len(), 2);
    assert_eq!(running_count(&lines), 0);
    for line in &lines {
        assert_eq!(line.activity.as_ref().unwrap().end, Some(at("2021-09-01 10:00")));
        assert!(line.changed);
    }
    // stopping again changes nothing
    let again = stop(&mut lines, Some(at("2021-09-01 11:00"))).unwrap();
    assert!(again.is_empty());
    assert_eq!(lines[0].activity.as_ref().unwrap().end, Some(at("2021-09-01 10:00")));
}

#[test]
fn start_leaves_exactly_the_new_activity_running() {
    let mut lines = Vec::new();
    start(&mut lines, "p1", "d1", Some(at("2021-09-01 09:00")));
    let notices = start(&mut lines, "p2", "d2", Some(at("2021-09-01 10:00"))).unwrap();
    assert_eq!(lines.len(), 2);
    assert_eq!(running_count(&lines), 1);
    let last = lines[1].activity.as_ref().unwrap();
    assert_eq!(last.project, "p2");
    assert_eq!(last.description, "d2");
    assert_eq!(last.start, at("2021-09-01 10:00"));
    assert_eq!(lines[0].activity.as_ref().unwrap().end, Some(at("2021-09-01 10:00")));
    assert_eq!(notices.len(), 2);
    assert!(matches!(&notices[0], Notice::Stopped(a) if a.project == "p1"));
    assert!(matches!(&notices[1], Notice::Started(a) if a.project == "p2"));
}

#[test]
fn cancel_removes_only_running_activities() {
    let mut lines = Vec::new();
    start(&mut lines, "p1", "d1", Some(at("2021-09-01 09:00")));
    start(&mut lines, "p2", "d2", Some(at("2021-09-01 10:00")));
    lines.push(Line::new("not an activity", 7));
    let (kept, notices) = cancel(lines);
    assert_eq!(kept.len(), 2);
    assert_eq!(kept[0].activity.as_ref().unwrap().project, "p1");
    assert!(kept[1].activity.is_err());
    assert_eq!(notices.len(), 1);
    assert!(matches!(&notices[0], Notice::Canceled(a) if a.project == "p2"));
    let (again, none) = cancel(kept);
    assert_eq!(again.len(), 2);
    assert!(none.is_empty());
}

#[test]
fn change_renames_the_running_activity() {
    let mut lines = Vec::new();
    start(&mut lines, "p1", "d1", Some(at("2021-09-01 09:00")));
    start(&mut lines, "p2", "d2", Some(at("2021-09-01 10:00")));
    let notices = change(&mut lines, Some("p3"), Some("d3"), None);
    assert_eq!(notices.len(), 1);
    let last = lines[1].activity.as_ref().unwrap();
    assert_eq!(last.project, "p3");
    assert_eq!(last.description, "d3");
    assert_eq!(last.start, at("2021-09-01 10:00"));
    let first = lines[0].activity.as_ref().unwrap();
    assert_eq!(first.project, "p1");
    assert_eq!(first.end, Some(at("2021-09-01 10:00")));
    // without anything to change, nothing changes
    let quiet = change(&mut lines, None, None, None);
    assert!(quiet.is_empty());
}

#[test]
fn descriptions_and_projects_by_recency() {
    let mut lines = Vec::new();
    lines.push(Line::for_activity(stopped("a", "x", "2021-09-01 09:00", "2021-09-01 10:00")));
    lines.push(Line::for_activity(stopped("b", "y", "2021-09-01 10:00", "2021-09-01 11:00")));
    lines.push(Line::for_activity(stopped("c", "z", "2021-09-01 11:00", "2021-09-01 12:00")));
    lines.push(Line::for_activity(stopped("a", "x", "2021-09-01 12:00", "2021-09-01 13:00")));
    // logged later, but started earlier than everything else
    lines.push(Line::for_activity(stopped("d", "w", "2021-08-31 12:00", "2021-08-31 13:00")));
    let pairs = get_descriptions_and_projects(&lines);
    let expected: Vec<(String, String)> = vec![
        ("w".to_string(), "d".to_string()),
        ("y".to_string(), "b".to_string()),
        ("z".to_string(), "c".to_string()),
        ("x".to_string(), "a".to_string()),
    ];
    assert_eq!(pairs, expected);
}

#[test]
fn continue_restarts_logged_activities() {
    let mut lines = Vec::new();
    assert_eq!(
        continue_last_activity(&mut lines, None, None, None, 0).unwrap_err(),
        ContinueError::NoActivityStarted
    );
    start(&mut lines, "p1", "d1", Some(at("2021-09-01 09:00")));
    start(&mut lines, "p2", "d2", Some(at("2021-09-01 10:00")));
    assert_eq!(
        continue_last_activity(&mut lines, None, None, None, 3).unwrap_err(),
        ContinueError::TooFewActivities(3)
    );
    assert_eq!(lines.len(), 2);

    let notices = continue_last_activity(&mut lines, None, None, Some(at("2021-09-01 11:00")), 1).unwrap();
    assert_eq!(notices.len(), 2);
    let last = lines[2].activity.as_ref().unwrap();
    assert_eq!((last.project.as_str(), last.description.as_str()), ("p1", "d1"));
    assert_eq!(last.start, at("2021-09-01 11:00"));
    assert_eq!(running_count(&lines), 1);

    continue_last_activity(&mut lines, Some("p9"), None, Some(at("2021-09-01 12:00")), 0).unwrap();
    let last = lines[3].activity.as_ref().unwrap();
    assert_eq!((last.project.as_str(), last.description.as_str()), ("p9", "d1"));
}

#[test]
fn lines_are_read_and_written() {
    let done = Line::new("2021-09-01 15:00 - 2021-09-01 16:00 | proj | desc", 0);
    let a = done.activity.as_ref().unwrap();
    assert_eq!(a.start, at("2021-09-01 15:00"));
    assert_eq!(a.end, Some(at("2021-09-01 16:00")));
    assert_eq!(a.project, "proj");
    assert_eq!(a.description, "desc");
    assert_eq!(done.line_number, Some(0));
    assert!(!done.changed);

    let running = Line::new("2021-09-01 15:00 | a \\| b | c \\\\ d", 1);
    let r = running.activity.as_ref().unwrap();
    assert_eq!(r.end, None);
    assert_eq!(r.project, "a | b");
    assert_eq!(r.description, "c \\ d");

    assert_eq!(Line::new("no fields here", 2).activity, Err(ActivityError::GeneralParseError));
    assert_eq!(Line::new("yesterday | p | d", 3).activity, Err(ActivityError::DateTimeParseError));
    assert_eq!(
        Line::new("2021-09-01 15:00 - later | p | d", 4).activity,
        Err(ActivityError::DateTimeParseError)
    );

    let text = r.to_text();
    assert_eq!(text, "2021-09-01 15:00 | a \\| b | c \\\\ d\n");
    let back = Line::new(text.trim_end_matches('\n'), 5);
    assert_eq!(back.activity.as_ref().unwrap(), r);

    let mut changed = Line::new("2021-09-01 15:00 |  p  | d", 6);
    let kept = Line::new("  anything  ", 7);
    changed.set_changed();
    assert_eq!(file_content_text(&vec![changed, kept]), "2021-09-01 15:00 | p | d\n  anything  \n");
}

#[test]
fn report_groups_and_lines() {
    let a1 = stopped("p1", "d1", "2021-09-01 15:00", "2021-09-01 15:20");
    let a2 = stopped("p1", "d2", "2021-09-01 15:21", "2021-09-01 16:21");
    let a3 = stopped("p2", "d1", "2021-09-01 16:21", "2021-09-02 16:21");
    let activities = vec![&a1, &a2, &a3];
    let groups: Vec<Box<dyn ReportGroup>> = vec![Box::new(ReportGroupProject), Box::new(ReportGroupDescription)];
    let now = at("2021-09-03 00:00");
    let report = Report::new_at(&activities, groups, &now);
    assert_eq!(report.total_duration.num_seconds(), 91200);
    let top = &report.project_map;
    assert_eq!(top.len(), 2);
    assert_eq!(top.entries()[0].0, "p1");
    assert_eq!(top.entries()[1].0, "p2");
    assert_eq!(top.get("p1").unwrap().total_duration.num_seconds(), 4800);
    assert_eq!(top.get("p2").unwrap().total_duration.num_seconds(), 86400);
    // the groups add up to the total
    let sum: i128 = top.entries().iter().map(|e| e.1.total_duration.num_nanoseconds()).sum();
    assert_eq!(sum, report.total_duration.num_nanoseconds());
    assert!(top.get("p3").is_none());

    let lines = report.return_report_lines();
    assert_eq!(lines.len(), 10);
    let info = get_longest_line_info(&lines);
    assert_eq!(info.name, 3);
    assert_eq!(info.duration, 7);
    let texts: Vec<String> = lines
        .iter()
        .map(|l| match l {
            ReportLine::Item(item) => item.as_string(&info),
            ReportLine::Separator => String::new(),
        })
        .collect();
    assert_eq!(
        texts,
        vec![
            "p1.\t 1h 20m".to_string(),
            "  d1.\t    20m".to_string(),
            String::new(),
            "  d2.\t 1h 00m".to_string(),
            String::new(),
            String::new(),
            "p2.\t24h 00m".to_string(),
            "  d1.\t24h 00m".to_string(),
            String::new(),
            String::new(),
        ]
    );
    assert!(matches!(&lines[0], ReportLine::Item(i) if i.heading && i.indent == 0));
    let bold = |t: &str| nu_ansi_term::Style::new().bold().paint(t).to_string();
    assert_eq!(lines[0].write_line(&info), format!("{}\n", bold("p1.\t 1h 20m")));
    assert_eq!(lines[0].write_line(&info), "\u{1b}[1mp1.\t 1h 20m\u{1b}[0m\n");
    assert_eq!(lines[1].write_line(&info), "  d1.\t    20m\n");
    assert_eq!(lines[2].write_line(&info), "\n");
    let text = report.to_text().unwrap();
    let expected = format!(
        "{}\n  d1.\t    20m\n\n  d2.\t 1h 00m\n\n\n{}\n  d1.\t24h 00m\n\n\n",
        bold("p1.\t 1h 20m"),
        bold("p2.\t24h 00m")
    );
    assert_eq!(text, expected);
    assert!(matches!(&lines[1], ReportLine::Item(i) if !i.heading && i.indent == 1));
}

#[test]
fn report_by_date_and_running_activities() {
    let a1 = stopped("p1", "d1", "2021-09-01 23:00", "2021-09-02 01:00");
    let a2 = Activity::start("p1".to_string(), "d2".to_string(), Some(at("2021-09-02 08:00"))).unwrap();
    let activities = vec![&a1, &a2];
    let groups: Vec<Box<dyn ReportGroup>> = vec![Box::new(ReportGroupDate)];
    let now = at("2021-09-02 09:30");
    let map = create_project_map_at(&activities, &groups, &now);
    assert_eq!(map.len(), 2);
    assert_eq!(map.entries()[0].0, "2021-09-01");
    assert_eq!(map.get("2021-09-02").unwrap().total_duration.num_minutes(), 90);
    assert_eq!(sum_duration_at(&activities, &now).num_minutes(), 210);
}

#[test]
fn report_needs_a_grouping_for_activities() {
    let a1 = stopped("p1", "d1", "2021-09-01 15:00", "2021-09-01 15:20");
    assert!(Report::try_new(&[&a1], Vec::<Grouping>::new()).is_none());
    assert!(Report::try_new(&[], Vec::<Grouping>::new()).is_some());
    let groups: Vec<Box<dyn ReportGroup>> = vec![Box::new(ReportGroupProject)];
    let report = Report::try_new(&[&a1], groups).unwrap();
    assert_eq!(report.total_duration.num_minutes(), 20);
}

#[test]
fn cancelling_right_after_starting_removes_the_new_activity() {
    let mut lines = Vec::new();
    start(&mut lines, "p1", "d1", Some(at("2021-09-01 09:00")));
    start(&mut lines, "p2", "d2", Some(at("2021-09-01 10:00")));
    let (kept, notices) = cancel(lines);
    assert_eq!(kept.len(), 1);
    assert_eq!(kept[0].activity.as_ref().unwrap().end, Some(at("2021-09-01 10:00")));
    assert_eq!(notices.len(), 1);
    assert!(matches!(&notices[0], Notice::Canceled(a) if a.project == "p2"));
}

#[test]
fn continuing_without_a_number_restarts_the_most_recent() {
    let mut lines = Vec::new();
    lines.push(Line::for_activity(stopped("late", "x", "2021-09-02 09:00", "2021-09-02 10:00")));
    lines.push(Line::for_activity(stopped("early", "y", "2021-09-01 09:00", "2021-09-01 10:00")));
    continue_last_activity(&mut lines, None, None, Some(at("2021-09-03 09:00")), 0).unwrap();
    let last = lines[2].activity.as_ref().unwrap();
    assert_eq!((last.project.as_str(), last.description.as_str()), ("late", "x"));
    assert_eq!(last.end, None);
}

#[test]
fn changing_twice_is_changing_once() {
    // a stopped activity, written by hand, that ended at 10:00, and a running
    // activity that started earlier, at 09:30
    let mut lines = vec![
        Line::new("2021-09-01 09:00 -  2021-09-01 10:00 |  p1  | d1", 1),
        Line::new("2021-09-01 09:30 | p2 | d2", 2),
    ];
    assert!(lines[0].activity.is_ok());
    assert!(lines[1].activity.is_ok());
    let notices = change(&mut lines, None, None, Some(at("2021-09-01 10:00")));
    assert_eq!(notices.len(), 1);
    // the stopped activity did not end when the running one started: untouched
    assert!(!lines[0].changed);
    assert!(lines[1].changed);
    let first = file_content_text(&lines);
    // the same change again leaves the stopped line as it was
    change(&mut lines, None, None, Some(at("2021-09-01 10:00")));
    assert!(!lines[0].changed);
    assert_eq!(file_content_text(&lines), first);
    assert!(first.starts_with("2021-09-01 09:00 -  2021-09-01 10:00 |  p1  | d1\n"));

    // a stopped activity that ended when the running one started is moved
    // once, and the second change leaves it where the first put it
    let mut moved = vec![
        Line::new("2021-09-01 09:00 -  2021-09-01 09:30 |  p1  | d1", 1),
        Line::new("2021-09-01 09:30 | p2 | d2", 2),
    ];
    change(&mut moved, None, None, Some(at("2021-09-01 10:00")));
    assert!(moved[0].changed);
    assert_eq!(moved[0].activity.as_ref().unwrap().end, Some(at("2021-09-01 10:00")));
    let once = file_content_text(&moved);
    change(&mut moved, None, None, Some(at("2021-09-01 10:00")));
    assert_eq!(file_content_text(&moved), once);
    assert_eq!(once, "2021-09-01 09:00 - 2021-09-01 10:00 | p1 | d1\n2021-09-01 10:00 | p2 | d2\n");
}

#[test]
fn white_space_is_what_std_says() {
    for n in 0..=0x10ffffu32 {
        if let Some(c) = char::from_u32(n) {
            assert_eq!(is_whitespace(c), c.is_whitespace(), "{n:#x}");
        }
    }
}

#[test]
fn totals_add_up_and_ignore_order() {
    let a1 = stopped("p1", "d1", "2021-09-01 15:00", "2021-09-01 15:20");
    let a2 = stopped("p1", "d2", "2021-09-01 15:21", "2021-09-01 16:21");
    let a3 = Activity::start("p2".to_string(), "d1".to_string(), Some(at("2021-09-02 08:00"))).unwrap();
    let now = at("2021-09-02 09:00");
    let first = vec![&a1, &a2];
    let second = vec![&a3];
    let both = vec![&a1, &a2, &a3];
    let total = sum_duration_at(&both, &now).num_minutes();
    assert_eq!(total, 20 + 60 + 60);
    assert_eq!(total, sum_duration_at(&first, &now).num_minutes() + sum_duration_at(&second, &now).num_minutes());
    let reordered = vec![&a3, &a1, &a2];
    assert_eq!(sum_duration_at(&reordered, &now).num_minutes(), total);
}

#[test]
fn report_ignores_order_of_activities() {
    let a1 = stopped("p2", "d1", "2021-09-01 15:00", "2021-09-01 15:20");
    let a2 = stopped("p1", "d2", "2021-09-01 15:21", "2021-09-01 16:21");
    let a3 = stopped("p1", "d1", "2021-09-01 16:21", "2021-09-01 16:51");
    let groups: Vec<Box<dyn ReportGroup>> = vec![Box::new(ReportGroupProject), Box::new(ReportGroupDescription)];
    let now = at("2021-09-03 00:00");
    let shape = |acts: &Vec<&Activity>| -> Vec<(String, i64, Vec<(String, i64)>)> {
        let map = create_project_map_at(acts, &groups, &now);
        map.entries()
            .iter()
            .map(|(k, e)| {
                let below = e.items.entries().iter().map(|(k2, e2)| (k2.clone(), e2.total_duration.num_minutes())).collect();
                (k.clone(), e.total_duration.num_minutes(), below)
            })
            .collect()
    };
    let one = shape(&vec![&a1, &a2, &a3]);
    let other = shape(&vec![&a3, &a1, &a2]);
    assert_eq!(one, other);
    assert_eq!(
        one,
        vec![
            ("p1".to_string(), 90, vec![("d1".to_string(), 30), ("d2".to_string(), 60)]),
            ("p2".to_string(), 20, vec![("d1".to_string(), 20)]),
        ]
    );
}

#[test]
fn report_with_named_groupings() {
    let a1 = stopped("p1", "d1", "2021-09-01 15:00", "2021-09-01 15:20");
    let a2 = stopped("p2", "d2", "2021-09-01 15:21", "2021-09-01 16:21");
    let activities = vec![&a1, &a2];
    let kinds = vec![Grouping::Project, Grouping::Description];
    let report = Report::new(&activities, kinds).unwrap();
    assert_eq!(report.total_duration.num_minutes(), 80);
    assert_eq!(report.project_map.get("p2").unwrap().items.get("d2").unwrap().total_duration.num_minutes(), 60);
    let by_date = create_project_map(&activities, vec![Grouping::Date]).unwrap();
    assert_eq!(by_date.entries()[0].0, "2021-09-01");
}

#[test]
fn the_clock_gives_a_time_and_stops_with_it() {
    let now = Timestamp::now().unwrap();
    assert!(now.timestamp() > 1_600_000_000);
    let mut lines = Vec::new();
    let started = start(&mut lines, "p1", "d1", None).unwrap();
    assert_eq!(started.len(), 1);
    let stopped_now = stop(&mut lines, None).unwrap();
    assert_eq!(stopped_now.len(), 1);
    assert_eq!(running_count(&lines), 0);
    // with nothing running, stopping needs no clock and stops nothing
    assert!(stop(&mut lines, None).unwrap().is_empty());
}

#[test]
fn dates_follow_the_gregorian_calendar_to_both_ends() {
    let date = |secs: i64| Timestamp::from_parts(secs, 0).unwrap().date_string();
    assert_eq!(date(0), "1970-01-01");
    assert_eq!(date(-1), "1969-12-31");
    assert_eq!(date(951_782_400), "2000-02-29");
    assert_eq!(date(-2_203_891_200), "1900-03-01");
    assert_eq!(date(-62_162_035_200), "0000-03-01");
    assert_eq!(date(-62_167_219_200 - 86_400), "-0001-12-31");
    assert_eq!(date(253_402_300_800), "+10000-01-01");
    assert_eq!(date(MIN_TIMESTAMP_SECS), "-262143-01-01");
    assert_eq!(date(MAX_TIMESTAMP_SECS), "+262142-12-31");
    let far = Activity::start("p".to_string(), "d".to_string(), Some(Timestamp::from_parts(MIN_TIMESTAMP_SECS, 0).unwrap()))
        .unwrap();
    assert_eq!(far.to_text(), "-262143-01-01 00:00 | p | d\n");
    let late = Activity::start("p".to_string(), "d".to_string(), Some(Timestamp::from_parts(MAX_TIMESTAMP_SECS, 0).unwrap()))
        .unwrap();
    assert_eq!(late.to_text(), "+262142-12-31 23:59 | p | d\n");
}

#[test]
fn local_time_is_utc_moved_by_the_offset() {
    let utc = at("2021-09-01 23:30");
    assert_eq!(Timestamp::shifted(&utc, 3_600), Some(at("2021-09-02 00:30")));
    assert_eq!(Timestamp::shifted(&utc, -7_200), Some(at("2021-09-01 21:30")));
    let last = Timestamp::from_parts(MAX_TIMESTAMP_SECS, 0).unwrap();
    assert_eq!(Timestamp::shifted(&last, 1), None);
}
