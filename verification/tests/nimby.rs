use nimby_graph::nimby::parse_nimby_color;

#[test]
fn test_parse_nimby_color() {
    // Format: 0xAABBGGRR -> #RRGGBB
    assert_eq!(parse_nimby_color("0xff1a35fc"), "#fc351a");
    assert_eq!(parse_nimby_color("0xfffc351a"), "#1a35fc");
    assert_eq!(parse_nimby_color("0xff18f0ff"), "#fff018");
    assert_eq!(parse_nimby_color("invalid"), "#808080");
}

use nimby_graph::nimby::{
    classify_run, detect_frequency, find_best_first_departure, fits_frequency_pattern, normalize_platform_name,
    DirectionSchedule, NimbyRun, RunType,
};

fn run(line: &str, enter: usize, exit: usize, ad: Vec<i64>) -> NimbyRun {
    NimbyRun { line_id: line.to_string(), enter_stop_idx: enter, exit_stop_idx: exit, arrival_departure: ad }
}

#[test]
fn test_normalize_platform_name_strips_direction() {
    assert_eq!(normalize_platform_name("4S"), "4");
    assert_eq!(normalize_platform_name("12N"), "12");
    assert_eq!(normalize_platform_name("S"), "S");
    assert_eq!(normalize_platform_name("AS"), "AS");
    assert_eq!(normalize_platform_name("4X"), "4X");
}

#[test]
fn test_classify_run_types() {
    let t = Some(5);
    assert_eq!(classify_run(&run("L", 0, 10, vec![]), t, 10), RunType::FullLoop);
    assert_eq!(classify_run(&run("L", 0, 6, vec![]), t, 10), RunType::ForwardOnly);
    assert_eq!(classify_run(&run("L", 3, 10, vec![]), t, 10), RunType::ReturnOnly);
    assert_eq!(classify_run(&run("L", 1, 9, vec![]), t, 10), RunType::Partial);
    assert_eq!(classify_run(&run("L", 0, 6, vec![]), None, 10), RunType::Partial);
    assert_eq!(classify_run(&run("L", 0, 10, vec![]), None, 10), RunType::FullLoop);
}

#[test]
fn test_fits_frequency_pattern_tolerance() {
    assert!(fits_frequency_pattern(100, 0, 3600));
    assert!(!fits_frequency_pattern(1800, 0, 3600));
    assert!(fits_frequency_pattern(3500, 0, 3600));
    assert!(fits_frequency_pattern(-100, 0, 3600));
    assert!(!fits_frequency_pattern(100, 0, 0));
}

#[test]
fn test_detect_frequency_most_common_gap() {
    assert_eq!(detect_frequency(&[0, 600, 1200, 1800]), Some(600));
    assert_eq!(detect_frequency(&[1200, 0, 5000, 600]), Some(600));
    assert_eq!(detect_frequency(&[0, 100]), None);
    assert_eq!(detect_frequency(&[0]), None);
}

#[test]
fn test_find_best_first_departure() {
    assert_eq!(find_best_first_departure(&[100, 3600, 7200], 3600), Some(100));
    assert_eq!(find_best_first_departure(&[0, 1000, 4600, 8200], 3600), Some(1000));
    assert_eq!(find_best_first_departure(&[42], 3600), Some(42));
    assert_eq!(find_best_first_departure(&[], 3600), None);
}

#[test]
fn test_direction_schedule_finalize_days() {
    let mut s = DirectionSchedule::new();
    s.add_departure(90000);
    s.add_departure(3600);
    s.add_departure(7200);
    s.finalize();
    assert_eq!(s.departures(), &vec![3600, 7200]);
    assert_eq!(s.get_days_for_departure(3600).bits(), 0b11);
    assert_eq!(s.get_days_for_departure(7200).bits(), 0b1);
    assert_eq!(s.get_days_for_departure(5000).bits(), 0x7f);
    assert_eq!(s.days_of_week().bits(), 0b11);
    assert_eq!(s.frequency(), Some(3600));
    assert_eq!(s.first_departure(), Some(3600));
    assert_eq!(s.last_departure(), Some(7200));
}
