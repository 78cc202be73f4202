use std::str::FromStr;

use bartib::activity::Line;
use bartib::bartib_file::file_content_text;
use bartib::manipulation::{change, start, stop};
use bartib::time::Timestamp;
use chrono::{NaiveDate, NaiveDateTime, NaiveTime};

fn timestamp(dt: NaiveDateTime) -> Timestamp {
    let utc = dt.and_utc();
    Timestamp::from_parts(utc.timestamp(), utc.timestamp_subsec_nanos()).unwrap()
}

fn copy_lines(lines: &[Line]) -> Vec<Line> {
    lines.iter().map(|l| l.duplicate()).collect()
}

fn seed_test_file(file: &mut Vec<Line>) -> Vec<Line> {
    // Seed the log with activities, each started and stopped now
    for i in 1..100 {
        let project = format!("proj{i}");
        let description = format!("desc{i}");
        start(file, project.as_str(), description.as_str(), None);
        stop(file, None);
    }

    let mut file_contents = copy_lines(file);
    let added_lines: Vec<Line> = file_contents.drain((file_contents.len() - 99)..).collect();
    added_lines
}

#[test]
fn test_change() {
    let mut file: Vec<Line> = Vec::new();

    let test_file_seed = seed_test_file(&mut file);

    // Check that simply changing the time correctly, and only, alters the currently running activity
    start(&mut file, "test_proj", "test_desc", None);

    let target_time = NaiveDateTime::new(
        NaiveDate::from_isoywd_opt(2026, 10, chrono::Weekday::Mon).unwrap(),
        NaiveTime::from_str("10:00").unwrap(),
    );

    change(&mut file, None, None, Some(timestamp(target_time)));

    let mut file_contents = copy_lines(&file);

    let changed_activity = file_contents.pop().unwrap().activity.unwrap();

    assert_eq!(&changed_activity.start, &timestamp(target_time));
    assert_eq!(test_file_seed, file_contents);
}

#[test]
fn test_change_whilst_affecting_prev() {
    let mut file: Vec<Line> = Vec::new();

    let start_time = NaiveDateTime::new(
        NaiveDate::from_ymd_opt(2026, 01, 01).unwrap(),
        NaiveTime::from_num_seconds_from_midnight_opt(3600, 0).unwrap(),
    );
    let initial_finish = start_time + std::time::Duration::new(3600, 0);
    let final_finish = start_time + std::time::Duration::new(7200, 0);

    let file_seed = seed_test_file(&mut file);

    start(&mut file, "prev_proj", "prev_proj_desc", Some(timestamp(start_time)));

    start(&mut file, "second_proj", "second proj desc", Some(timestamp(initial_finish)));

    change(&mut file, None, None, Some(timestamp(final_finish)));

    let mut file_contents = copy_lines(&file);
    let test_activities: Vec<Line> = file_contents.split_off(file_contents.len() - 2);

    println!("{test_activities:?}");

    assert_eq!(
        test_activities.get(0).unwrap().activity.as_ref().unwrap().end.unwrap(),
        timestamp(final_finish)
    );

    assert_eq!(
        test_activities.get(1).unwrap().activity.as_ref().unwrap().start,
        timestamp(final_finish)
    );

    assert_eq!(file_contents, file_seed);
}

#[test]
fn change_whilst_affecting_prev_through_text() {
    // the log of the test above, as it stands in the file
    let text = "2026-01-01 01:00 - 2026-01-01 02:00 | prev_proj | prev_proj_desc\n\
                2026-01-01 02:00 | second_proj | second proj desc\n";
    let mut file: Vec<Line> = text.lines().enumerate().map(|(n, l)| Line::new(l, n)).collect();
    // a time with seconds is written to the minute
    let final_finish = NaiveDateTime::new(
        NaiveDate::from_ymd_opt(2026, 01, 01).unwrap(),
        NaiveTime::from_num_seconds_from_midnight_opt(3 * 3600 + 30, 0).unwrap(),
    );
    change(&mut file, None, None, Some(timestamp(final_finish)));
    let written = file_content_text(&file);
    assert_eq!(
        written,
        "2026-01-01 01:00 - 2026-01-01 03:00 | prev_proj | prev_proj_desc\n\
         2026-01-01 03:00 | second_proj | second proj desc\n"
    );
    let back: Vec<Line> = written.lines().enumerate().map(|(n, l)| Line::new(l, n)).collect();
    let minute = NaiveDateTime::new(
        NaiveDate::from_ymd_opt(2026, 01, 01).unwrap(),
        NaiveTime::from_num_seconds_from_midnight_opt(3 * 3600, 0).unwrap(),
    );
    assert_eq!(back[0].activity.as_ref().unwrap().end, Some(timestamp(minute)));
    assert_eq!(back[1].activity.as_ref().unwrap().start, timestamp(minute));
    assert_eq!(file_content_text(&back), written);
}
