use monk_core::availability::{filter_monks, is_bookable, Monk, ScheduleItem};
use monk_core::json::JsonValue;

fn entry(day: &str, active: bool) -> ScheduleItem {
    ScheduleItem { day: day.to_string(), active }
}

fn monk(id: &str, available: bool, schedule: Vec<ScheduleItem>) -> Monk {
    Monk { id: id.to_string(), is_available: available, schedule, extra: Vec::new() }
}

fn ids(monks: &[Monk]) -> Vec<String> {
    monks.iter().map(|m| m.id.clone()).collect()
}

#[test]
fn unavailable_profile_never_kept() {
    for day in ["", "Monday", "sunday"] {
        let monks = vec![
            monk("a", false, Vec::new()),
            monk("b", true, Vec::new()),
            monk("c", false, vec![entry("Monday", true)]),
        ];
        assert_eq!(ids(&filter_monks(monks, day)), vec!["b".to_string()]);
    }
}

#[test]
fn empty_day_keeps_every_available_profile() {
    let monks = vec![
        monk("a", true, vec![entry("Monday", false)]),
        monk("b", false, Vec::new()),
        monk("c", true, vec![entry("Friday", true)]),
        monk("d", true, Vec::new()),
    ];
    assert_eq!(ids(&filter_monks(monks, "")), vec!["a", "c", "d"]);
}

#[test]
fn empty_schedule_kept_for_any_day() {
    for day in ["", "Monday", "Tuesday", "anything"] {
        let monks = vec![monk("a", true, Vec::new())];
        assert_eq!(ids(&filter_monks(monks, day)), vec!["a"]);
    }
}

#[test]
fn inactive_monday_excluded_for_lower_case_day() {
    let monks = vec![monk("a", true, vec![entry("Monday", false)])];
    assert!(filter_monks(monks, "monday").is_empty());
}

#[test]
fn active_day_matches_ignoring_case() {
    let monks = vec![monk("a", true, vec![entry("Monday", false), entry("tuesday", true)])];
    assert_eq!(ids(&filter_monks(monks, "TUESDAY")), vec!["a"]);
}

#[test]
fn day_missing_from_schedule_excludes() {
    let monks = vec![monk("a", true, vec![entry("Monday", true), entry("Tuesday", true)])];
    assert!(filter_monks(monks, "Sunday").is_empty());
}

#[test]
fn first_entry_for_a_day_decides() {
    let m = monk("a", true, vec![entry("friday", true), entry("Friday", false)]);
    assert!(is_bookable(&m, "Friday"));
    let m = monk("b", true, vec![entry("friday", false), entry("Friday", true)]);
    assert!(!is_bookable(&m, "Friday"));
}

#[test]
fn kept_profiles_keep_order_and_fields() {
    let mut a = monk("a", true, vec![entry("Monday", true)]);
    a.extra.push(("name".to_string(), JsonValue::Str("Bat".to_string())));
    a.extra.push(("rank".to_string(), JsonValue::Number("7".to_string())));
    let b = monk("b", true, vec![entry("Monday", false)]);
    let c = monk("c", true, Vec::new());
    let out = filter_monks(vec![a, b, c], "Monday");
    assert_eq!(ids(&out), vec!["a", "c"]);
    assert_eq!(out[0].schedule.len(), 1);
    assert_eq!(
        out[0].extra,
        vec![
            ("name".to_string(), JsonValue::Str("Bat".to_string())),
            ("rank".to_string(), JsonValue::Number("7".to_string())),
        ]
    );
}

#[test]
fn empty_input_gives_empty_output() {
    assert!(filter_monks(Vec::new(), "Monday").is_empty());
}
