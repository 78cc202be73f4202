use bartib::activity::Activity;
use bartib::report::{create_project_map, sum_duration, ReportGroup, ReportGroupDescription, ReportGroupProject};
use bartib::time::Timestamp;
use chrono::NaiveDateTime;

fn parse(text: &str) -> Timestamp {
    let dt = NaiveDateTime::parse_from_str(text, "%Y-%m-%d %H:%M:%S").unwrap().and_utc();
    Timestamp::from_parts(dt.timestamp(), dt.timestamp_subsec_nanos()).unwrap()
}

#[test]
fn sum_duration_test() {
    let mut activities: Vec<&Activity> = Vec::new();
    assert_eq!(sum_duration(&activities).unwrap().num_seconds(), 0);

    let mut a1 = Activity::start("p1".to_string(), "d1".to_string(), Some(parse("2021-09-01 15:00:00"))).unwrap();
    a1.end = Some(parse("2021-09-01 15:20:00")); // 20 * 60 = 1,200 seconds
    let mut a2 = Activity::start("p1".to_string(), "d2".to_string(), Some(parse("2021-09-01 15:21:00"))).unwrap();
    a2.end = Some(parse("2021-09-01 16:21:00")); // 60 * 60 = 3,600 seconds
    let mut a3 = Activity::start("p2".to_string(), "d1".to_string(), Some(parse("2021-09-01 16:21:00"))).unwrap();
    a3.end = Some(parse("2021-09-02 16:21:00")); // 24 * 60 * 60 = 86,400 seconds

    activities.push(&a1);
    activities.push(&a2);
    activities.push(&a3);

    assert_eq!(sum_duration(&activities).unwrap().num_seconds(), 91200);
}

#[test]
fn group_activities_by_project_test() {
    let a1 = Activity::start("p1".to_string(), "d1".to_string(), None).unwrap();
    let a2 = Activity::start("p1".to_string(), "d2".to_string(), None).unwrap();
    let a3 = Activity::start("p2".to_string(), "d1".to_string(), None).unwrap();

    let activities = vec![&a1, &a2, &a3];
    let groups: Vec<Box<dyn ReportGroup>> = vec![Box::new(ReportGroupProject), Box::new(ReportGroupDescription)];
    let m = create_project_map(&activities, groups).unwrap();

    assert_eq!(m.len(), 2);
    assert_eq!(m.get("p1").unwrap().items.len(), 2, "{m:?}");
    assert_eq!(m.get("p2").unwrap().items.len(), 1);
}
