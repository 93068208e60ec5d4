use nimby_graph::line::{RouteDirection, ScheduleMode};
use nimby_graph::nimby::{NimbyRun, NimbySchedule, NimbyShift};
use nimby_graph::nimby_runs::{
    collect_runs_for_line, detect_turnaround, get_return_departure_from_full_loop,
    get_return_departure_from_return_only, group_partial_runs, is_depot_name, is_real_stop, plan_line_schedule,
    run_departure_time, LineStop,
};

fn stop(id: &str) -> LineStop {
    LineStop { station_id: id.to_string(), is_depot: false }
}

fn depot(id: &str) -> LineStop {
    LineStop { station_id: id.to_string(), is_depot: true }
}

fn run(line: &str, enter: usize, exit: usize, ad: Vec<i64>) -> NimbyRun {
    NimbyRun { line_id: line.to_string(), enter_stop_idx: enter, exit_stop_idx: exit, arrival_departure: ad }
}

fn loop_stops() -> Vec<LineStop> {
    vec![stop("1"), stop("2"), stop("3"), stop("2"), stop("1")]
}

fn one_schedule(runs: Vec<NimbyRun>) -> Vec<NimbySchedule> {
    vec![NimbySchedule {
        id: "s".to_string(),
        name: "S".to_string(),
        shifts: vec![NimbyShift { id: "h".to_string(), name: "Shift 1".to_string(), runs }],
    }]
}

#[test]
fn test_is_depot_name() {
    assert!(is_depot_name("Oslo [DEP]"));
    assert!(!is_depot_name("Oslo"));
    assert!(!is_depot_name("[DE P]"));
}

#[test]
fn test_is_real_stop() {
    assert!(is_real_stop(&stop("0x12")));
    assert!(!is_real_stop(&stop("0x0")));
    assert!(!is_real_stop(&depot("0x12")));
}

#[test]
fn test_detect_turnaround_simple_loop() {
    assert_eq!(detect_turnaround(&loop_stops()), Some(2));
}

#[test]
fn test_detect_turnaround_skips_waypoints_and_depots() {
    let stops = vec![stop("A"), stop("0x0"), stop("B"), depot("C"), stop("D"), stop("B")];
    assert_eq!(detect_turnaround(&stops), Some(4));
}

#[test]
fn test_detect_turnaround_none_cases() {
    assert_eq!(detect_turnaround(&[stop("A"), stop("A")]), None);
    assert_eq!(detect_turnaround(&[stop("A"), stop("B"), stop("C"), stop("D")]), None);
    assert_eq!(detect_turnaround(&[stop("A"), stop("0x0"), stop("0x0"), stop("A")]), None);
}

#[test]
fn test_return_departure_from_full_loop() {
    let r = run("L", 0, 4, vec![0, 100, 200, 300, 400, 500, 600, 700, 800, 900]);
    assert_eq!(get_return_departure_from_full_loop(&r, Some(2), &loop_stops()), Some(500));
    let stops = vec![stop("1"), stop("2"), stop("0x0"), stop("2"), stop("1")];
    assert_eq!(get_return_departure_from_full_loop(&r, Some(2), &stops), Some(700));
    assert_eq!(get_return_departure_from_full_loop(&r, None, &loop_stops()), None);
    assert_eq!(get_return_departure_from_full_loop(&r, Some(9), &loop_stops()), None);
    let short = run("L", 0, 4, vec![0, 100, 200]);
    assert_eq!(get_return_departure_from_full_loop(&short, Some(2), &loop_stops()), None);
}

#[test]
fn test_return_departure_from_return_only() {
    let stops = vec![stop("1"), stop("2"), stop("0x0"), stop("3"), stop("1")];
    let r = run("L", 2, 4, vec![10, 20, 30, 40, 50, 60]);
    assert_eq!(get_return_departure_from_return_only(&r, &stops), Some(40));
    let past_end = run("L", 7, 9, vec![10, 20]);
    assert_eq!(get_return_departure_from_return_only(&past_end, &stops), None);
    let short = run("L", 3, 4, vec![10]);
    assert_eq!(get_return_departure_from_return_only(&short, &stops), None);
}

#[test]
fn test_run_departure_time() {
    assert_eq!(run_departure_time(&run("L", 0, 1, vec![5, 7])), 7);
    assert_eq!(run_departure_time(&run("L", 0, 1, vec![5])), 0);
}

fn sample_runs() -> Vec<NimbyRun> {
    vec![
        run("L", 0, 4, vec![0, 3600, 0, 0, 0, 5400, 0, 0, 0, 0]),
        run("L", 0, 2, vec![0, 7200, 0, 0, 0, 0]),
        run("L", 2, 4, vec![0, 9000, 0, 0, 0, 0]),
        run("L", 1, 3, vec![0, 4000, 0, 0, 0, 0]),
        run("M", 0, 4, vec![0, 100, 0, 0, 0, 0, 0, 0, 0, 0]),
    ]
}

#[test]
fn test_collect_runs_for_line_partials() {
    let schedules = one_schedule(sample_runs());
    let (_, _, partial) = collect_runs_for_line(&schedules, "L", Some(2), 4, &loop_stops());
    assert_eq!(partial, vec![(0, 0, 3)]);
}

#[test]
fn test_plan_line_schedule_regular() {
    let schedules = one_schedule(sample_runs());
    let (plan, partial, forward, back) = plan_line_schedule(&schedules, "L", Some(2), 4, &loop_stops());
    assert_eq!(partial, vec![(0, 0, 3)]);
    assert_eq!(forward.departures(), &vec![3600, 7200]);
    assert_eq!(back.departures(), &vec![5400, 9000]);
    assert_eq!(plan.schedule_mode, ScheduleMode::Auto);
    assert_eq!(plan.frequency, Some(3600));
    assert_eq!(plan.days_of_week.map(|d| d.bits()), Some(1));
    assert_eq!(plan.first_departure, Some(3600));
    assert_eq!(plan.last_departure, Some(7200));
    assert_eq!(plan.return_first_departure, Some(5400));
    assert_eq!(plan.return_last_departure, Some(9000));
    assert!(plan.manual_departures.is_empty());
    assert!(plan.add_partial_runs);
}

#[test]
fn test_plan_line_schedule_irregular_departure() {
    let mut runs = sample_runs();
    runs.push(run("L", 0, 2, vec![0, 10800, 0, 0, 0, 0]));
    runs.push(run("L", 0, 2, vec![0, 12600, 0, 0, 0, 0]));
    let schedules = one_schedule(runs);
    let (plan, _, forward, _) = plan_line_schedule(&schedules, "L", Some(2), 4, &loop_stops());
    assert_eq!(forward.departures(), &vec![3600, 7200, 10800, 12600]);
    assert_eq!(plan.frequency, Some(3600));
    assert_eq!(plan.first_departure, Some(3600));
    assert_eq!(plan.manual_departures.len(), 1);
    assert_eq!(plan.manual_departures[0].time, 12600);
    assert_eq!(plan.manual_departures[0].direction, RouteDirection::Forward);
    assert_eq!(plan.manual_departures[0].days.bits(), 1);
}

#[test]
fn test_plan_line_schedule_manual_without_frequency() {
    let schedules = one_schedule(vec![
        run("L", 0, 4, vec![0, 90000, 0, 0, 0, 91800, 0, 0, 0, 0]),
    ]);
    let (plan, partial, _, _) = plan_line_schedule(&schedules, "L", Some(2), 4, &loop_stops());
    assert!(partial.is_empty());
    assert_eq!(plan.schedule_mode, ScheduleMode::Manual);
    assert_eq!(plan.frequency, None);
    assert_eq!(plan.days_of_week.map(|d| d.bits()), Some(0b10));
    assert_eq!(plan.first_departure, None);
    assert_eq!(plan.manual_departures.len(), 2);
    assert_eq!(plan.manual_departures[0].time, 3600);
    assert_eq!(plan.manual_departures[0].direction, RouteDirection::Forward);
    assert_eq!(plan.manual_departures[0].days.bits(), 0b10);
    assert_eq!(plan.manual_departures[1].time, 5400);
    assert_eq!(plan.manual_departures[1].direction, RouteDirection::Return);
}

#[test]
fn test_plan_line_schedule_nothing() {
    let schedules = one_schedule(vec![run("M", 0, 4, vec![0, 100])]);
    let (plan, partial, _, _) = plan_line_schedule(&schedules, "L", Some(2), 4, &loop_stops());
    assert!(partial.is_empty());
    assert_eq!(plan.schedule_mode, ScheduleMode::Manual);
    assert!(plan.days_of_week.is_none());
    assert!(!plan.add_partial_runs);
    assert!(plan.manual_departures.is_empty());
}

#[test]
fn test_group_partial_runs_by_time_of_day() {
    let groups = group_partial_runs(&[3600, 90000, 7200, -100, 700000]);
    assert_eq!(groups.len(), 4);
    assert_eq!((groups[0].time, groups[0].days.bits(), groups[0].first), (3600, 0b11, 0));
    assert_eq!((groups[1].time, groups[1].days.bits(), groups[1].first), (7200, 0b1, 2));
    assert_eq!((groups[2].time, groups[2].days.bits(), groups[2].first), (-100, 0b1, 3));
    assert_eq!((groups[3].time, groups[3].days.bits(), groups[3].first), (8800, 0x7f, 4));
}

use nimby_graph::nimby_runs::{count_stations, is_summarized_line};

#[test]
fn test_is_summarized_line() {
    assert!(is_summarized_line("R14", 5));
    assert!(!is_summarized_line("D-14", 5));
    assert!(!is_summarized_line("R1", 1));
    assert!(is_summarized_line("", 2));
}

#[test]
fn test_count_stations_skips_waypoints() {
    let ids = vec!["0x1".to_string(), "0x0".to_string(), "0x2".to_string()];
    assert_eq!(count_stations(&ids), 2);
    assert_eq!(count_stations(&[]), 0);
}

use nimby_graph::nimby::NimbyTrackArea;
use nimby_graph::nimby_runs::get_platform_from_stop;

#[test]
fn test_get_platform_from_stop() {
    let area = |n: &str| NimbyTrackArea { platform_name: n.to_string() };
    assert_eq!(get_platform_from_stop(&[vec![], vec![area("4S"), area("5")]]), Some("4".to_string()));
    assert_eq!(get_platform_from_stop(&[vec![area("B2")]]), Some("B2".to_string()));
    assert_eq!(get_platform_from_stop(&[vec![], vec![]]), None);
    assert_eq!(get_platform_from_stop(&[]), None);
}

#[test]
fn line_summaries_skip_short_and_deadhead_lines() {
    let line = |id: &str, code: &str, color: &str, stops: &[&str]| nimby_graph::nimby_runs::NimbyLineData {
        id: id.to_string(),
        name: format!("Line {id}"),
        code: code.to_string(),
        color: color.to_string(),
        stop_station_ids: stops.iter().map(|s| s.to_string()).collect(),
    };
    let lines = vec![
        line("a", "R1", "0xff0000ff", &["s1", "0x0", "s2"]),
        line("b", "D-1", "0xff00ff00", &["s1", "s2"]),
        line("c", "R2", "0xffff0000", &["s1"]),
        line("d", "R3", "red", &["s1", "s2"]),
    ];
    let text = |c: &str| if c == "#ff0000" { "#fff" } else { "#000" };
    let summaries = nimby_graph::nimby_runs::get_line_summaries(&lines, text);
    assert_eq!(summaries.len(), 2);
    assert_eq!(summaries[0].id, "a");
    assert_eq!(summaries[0].color, "#ff0000");
    assert_eq!(summaries[0].text_color, "#fff");
    assert_eq!((summaries[0].stop_count, summaries[0].station_count), (3, 2));
    assert_eq!(summaries[1].id, "d");
    assert_eq!(summaries[1].color, "#808080");
    assert_eq!(summaries[1].text_color, "#000");
}

#[test]
fn colours_that_slice_inside_a_character_are_refused() {
    assert!(nimby_graph::nimby::nimby_color_parses("0xff0000ff"));
    assert!(nimby_graph::nimby::nimby_color_parses("red"));
    assert!(!nimby_graph::nimby::nimby_color_parses("0xf\u{e9}00000"));
}
