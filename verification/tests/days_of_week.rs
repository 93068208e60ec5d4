use nimby_graph::days_of_week::DaysOfWeek;

#[test]
fn test_default_is_all_days() {
    let days = DaysOfWeek::default();
    assert!(days.is_all_days());
    assert!(days.contains(DaysOfWeek::MONDAY()));
    assert!(days.contains(DaysOfWeek::SUNDAY()));
}

#[test]
fn test_contains() {
    let days = DaysOfWeek::MONDAY() | DaysOfWeek::FRIDAY();
    assert!(days.contains(DaysOfWeek::MONDAY()));
    assert!(days.contains(DaysOfWeek::FRIDAY()));
    assert!(!days.contains(DaysOfWeek::TUESDAY()));
}

#[test]
fn test_weekdays() {
    let days = DaysOfWeek::WEEKDAYS();
    assert!(days.contains(DaysOfWeek::MONDAY()));
    assert!(days.contains(DaysOfWeek::FRIDAY()));
    assert!(!days.contains(DaysOfWeek::SATURDAY()));
    assert!(!days.contains(DaysOfWeek::SUNDAY()));
}

#[test]
fn test_weekends() {
    let days = DaysOfWeek::WEEKENDS();
    assert!(days.contains(DaysOfWeek::SATURDAY()));
    assert!(days.contains(DaysOfWeek::SUNDAY()));
    assert!(!days.contains(DaysOfWeek::MONDAY()));
}

#[test]
fn test_to_display_string() {
    assert_eq!(DaysOfWeek::ALL_DAYS().to_display_string(), "All days");
    assert_eq!(DaysOfWeek::WEEKDAYS().to_display_string(), "Weekdays");
    assert_eq!(DaysOfWeek::WEEKENDS().to_display_string(), "Weekends");

    let mon_wed = DaysOfWeek::MONDAY() | DaysOfWeek::WEDNESDAY();
    assert_eq!(mon_wed.to_display_string(), "Mon, Wed");
}

#[test]
fn test_from_index() {
    assert_eq!(DaysOfWeek::from_index(0), Some(DaysOfWeek::MONDAY()));
    assert_eq!(DaysOfWeek::from_index(6), Some(DaysOfWeek::SUNDAY()));
    assert_eq!(DaysOfWeek::from_index(7), None);
}

#[test]
fn test_day_names() {
    assert_eq!(DaysOfWeek::day_name(0), Some("Monday"));
    assert_eq!(DaysOfWeek::day_name(6), Some("Sunday"));
    assert_eq!(DaysOfWeek::day_short_name(0), Some("Mon"));
    assert_eq!(DaysOfWeek::day_short_name(6), Some("Sun"));
}

#[test]
fn days_insert_and_union_agree() {
    let mut a = DaysOfWeek::MONDAY();
    a.insert(DaysOfWeek::SUNDAY());
    let b = DaysOfWeek::MONDAY().union(DaysOfWeek::SUNDAY());
    assert_eq!(a, b);
    assert_eq!(a.to_display_string(), "Mon, Sun");
}

#[test]
fn days_from_bits_rejects_unknown_bits() {
    assert_eq!(DaysOfWeek::from_bits(0b0111_1111), Some(DaysOfWeek::ALL_DAYS()));
    assert_eq!(DaysOfWeek::from_bits(0b1000_0000), None);
    assert_eq!(DaysOfWeek::empty().to_display_string(), "");
}

#[test]
fn days_short_name_is_prefix_of_name() {
    for i in 0..7 {
        let name = DaysOfWeek::day_name(i).unwrap();
        let short = DaysOfWeek::day_short_name(i).unwrap();
        assert!(name.starts_with(short));
        assert_eq!(short.len(), 3);
    }
    assert_eq!(DaysOfWeek::day_name(7), None);
}
