use nimby_graph::line::ScheduleMode;

#[test]
fn test_schedule_mode_default() {
    let mode = ScheduleMode::default();
    assert_eq!(mode, ScheduleMode::Auto);
}

#[test]
fn test_create_from_ids() {
    let names = vec!["Line 1".to_string(), "Line 2".to_string()];
    let lines = nimby_graph::line::create_from_ids(&names, 0);

    assert_eq!(lines.len(), 2);
    assert_eq!(lines[0].name, "Line 1");
    assert_eq!(lines[1].name, "Line 2");
    assert_eq!(lines[0].frequency, 3600);
    assert!(lines[0].visible);
    assert_eq!(lines[0].schedule_mode, nimby_graph::line::ScheduleMode::Auto);
}

#[test]
fn test_create_from_ids_staggers_first_departures() {
    let names: Vec<String> = (1..=5).map(|i| format!("L{i}")).collect();
    let lines = nimby_graph::line::create_from_ids(&names, 3);
    let firsts: Vec<i64> = lines.iter().map(|l| l.first_departure).collect();
    // 05:00, 05:15, 05:30, 05:45, then 05:60 is no time of day: midnight.
    assert_eq!(firsts, vec![5 * 3600, 5 * 3600 + 900, 5 * 3600 + 1800, 5 * 3600 + 2700, 0]);
    assert_eq!(lines[1].return_first_departure, 6 * 3600 + 900);
    assert_eq!(lines[4].color_seed, 7);
    assert_eq!(lines[0].last_departure, 22 * 3600);
    assert_eq!(lines[0].auto_train_number_format, "{line} {seq:04}");
    assert_eq!(lines[0].default_wait_time, 30_000_000_000);
    assert!(lines[0].routes.sync_routes && lines[0].routes.forward_route.is_empty());
    assert!(lines[0].days_of_week.is_all_days());
}

#[test]
fn test_default_wait_time() {
    assert_eq!(nimby_graph::line::default_wait_time(), 30 * 1_000_000_000);
}

#[test]
fn test_new_line_defaults() {
    assert_eq!(nimby_graph::line::default_first_stop_wait_time(), 0);
    assert!(nimby_graph::line::default_visible());
    assert!(nimby_graph::line::default_sync_routes());
    assert!(!nimby_graph::line::default_sync_departure_offsets());
    assert_eq!(nimby_graph::line::default_train_number_format(), "{line} {seq:04}");
    assert_eq!(nimby_graph::line::default_return_last_departure(), 22 * 3600);
}
