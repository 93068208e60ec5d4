use nimby_graph::csv_import::{create_manual_departure, manual_departure_stations};
use nimby_graph::route::RouteSegment;
use nimby_graph::routing::{GraphEdge, RouteGraph};
use nimby_graph::track::{Track, TrackDirection};
use nimby_graph::csv_import::parse_time_to_duration;
use nimby_graph::csv_import::{
    analyze_csv, analyze_records, header_column_type_exec, detect_column_grouping, detect_column_type, extract_line_identifier, is_duration_format,
    is_time_format, looks_like_header, ColumnMapping, ColumnType,
};

#[test]
fn test_is_time_format() {
    assert!(is_time_format("0:00:00"));
    assert!(is_time_format("10:30:15"));
    assert!(is_time_format("1:05"));
    assert!(is_time_format("23:59"));

    assert!(!is_time_format("abc"));
    assert!(!is_time_format("10"));
    assert!(!is_time_format(""));
}

#[test]
fn test_is_duration_format() {
    assert!(is_duration_format("5min"));
    assert!(is_duration_format("30s"));
    assert!(is_duration_format("1h"));
    assert!(is_duration_format("0:10:00"));

    assert!(!is_duration_format("abc"));
    assert!(!is_duration_format(""));
}

#[test]
fn test_detect_column_type_with_header() {
    assert_eq!(detect_column_type(Some("Station"), &[], &[]), ColumnType::StationName);
    assert_eq!(detect_column_type(Some("Arrival Time"), &[], &[]), ColumnType::ArrivalTime);
}

#[test]
fn test_detect_column_type_from_samples() {
    // Times >= 4 hours are detected as ArrivalTime
    let time_samples = vec!["5:00:00".to_string(), "6:10:00".to_string()];
    assert_eq!(detect_column_type(None, &time_samples, &[]), ColumnType::ArrivalTime);

    // Short times (< 1 hour, > 2 minutes) are detected as TravelTime
    let duration_samples = vec!["0:05:00".to_string(), "0:10:00".to_string()];
    assert_eq!(detect_column_type(None, &duration_samples, &[]), ColumnType::TravelTime);
}

#[test]
fn test_looks_like_header() {
    let mut header_row = csv::StringRecord::new();
    header_row.push_field("Station");
    header_row.push_field("Line 1");
    header_row.push_field("Line 2");
    assert!(looks_like_header(&header_row));

    let mut data_row = csv::StringRecord::new();
    data_row.push_field("Station A");
    data_row.push_field("0:00:00");
    data_row.push_field("0:00:00");
    assert!(!looks_like_header(&data_row));
}

#[test]
fn test_analyze_csv_simple() {
    let csv = "Station,Line1,Line2\nA,0:00:00,0:00:00\nB,0:10:00,0:15:00\n";
    let config = analyze_csv(csv, None).expect("Should parse CSV");

    assert!(config.has_headers);
    assert_eq!(config.columns.len(), 3);
    assert_eq!(config.columns[0].column_type, ColumnType::StationName);
    // Short times (< 1 hour) are detected as TravelTime
    assert_eq!(config.columns[1].column_type, ColumnType::TravelTime);
    assert_eq!(config.columns[2].column_type, ColumnType::TravelTime);
}

#[test]
fn test_analyze_csv_no_headers() {
    let csv = "Station A,0:00:00,0:00:00\nStation B,0:10:00,0:15:00\n";
    let config = analyze_csv(csv, None).expect("Should parse CSV");

    assert!(!config.has_headers);
    assert_eq!(config.columns.len(), 3);
    assert_eq!(config.columns[0].column_type, ColumnType::StationName);
}

fn column(index: usize, column_type: ColumnType, header: Option<&str>) -> ColumnMapping {
    ColumnMapping {
        column_index: index,
        column_type,
        header: header.map(str::to_string),
        sample_values: Vec::new(),
        auto_detected_type: column_type,
        group_index: None,
    }
}

#[test]
fn column_type_labels() {
    assert_eq!(ColumnType::StationName.as_str(), "Station Name");
    assert_eq!(ColumnType::DistanceOffset.as_str(), "Distance Offset");
    assert_eq!(ColumnType::Skip.as_str(), "Skip");
}

#[test]
fn detect_column_type_header_words() {
    let station = vec![column(0, ColumnType::StationName, Some("Station"))];
    // A second "station" header does not make a second station column.
    assert_eq!(detect_column_type(Some("Stop"), &[], &station), ColumnType::Skip);
    assert_eq!(detect_column_type(Some("Stop offset"), &[], &station), ColumnType::Offset);
    assert_eq!(detect_column_type(Some("Plat."), &[], &station), ColumnType::Platform);
    assert_eq!(detect_column_type(Some("km"), &[], &station), ColumnType::TrackDistance);
    assert_eq!(detect_column_type(Some("Track"), &[], &station), ColumnType::TrackNumber);
    assert_eq!(detect_column_type(Some("Dep"), &[], &station), ColumnType::DepartureTime);
    assert_eq!(detect_column_type(Some("Duration"), &[], &station), ColumnType::TravelTime);
    assert_eq!(detect_column_type(Some("Dwell"), &[], &station), ColumnType::WaitTime);
}

#[test]
fn detect_column_type_numbers() {
    let station = vec![column(0, ColumnType::StationName, None)];
    let s = |v: &[&str]| v.iter().map(|x| x.to_string()).collect::<Vec<String>>();
    assert_eq!(detect_column_type(None, &s(&["1", "3", " 2 "]), &station), ColumnType::Platform);
    assert_eq!(detect_column_type(None, &s(&["1", "1"]), &station), ColumnType::TrackNumber);
    assert_eq!(detect_column_type(None, &s(&["1", "2", "1"]), &station), ColumnType::Platform);
    assert_eq!(detect_column_type(None, &s(&["0", "-1"]), &station), ColumnType::Skip);
    assert_eq!(detect_column_type(None, &s(&["1.5", "2", ""]), &station), ColumnType::TrackDistance);
    assert_eq!(detect_column_type(None, &s(&["", "  "]), &station), ColumnType::Skip);
    assert_eq!(detect_column_type(None, &s(&["Alpha", "Beta"]), &[]), ColumnType::StationName);
}

#[test]
fn detect_column_type_times_and_durations() {
    let station = vec![column(0, ColumnType::StationName, None)];
    let arrival = vec![column(0, ColumnType::StationName, None), column(1, ColumnType::ArrivalTime, None)];
    let s = |v: &[&str]| v.iter().map(|x| x.to_string()).collect::<Vec<String>>();
    // Average of 0:01:00 and 0:03:00 is exactly two minutes: wait time.
    assert_eq!(detect_column_type(None, &s(&["0:01:00", "0:03:00"]), &station), ColumnType::WaitTime);
    assert_eq!(detect_column_type(None, &s(&["0:01:00", "0:03:01"]), &station), ColumnType::TravelTime);
    // Starts at zero and never decreases: offset.
    assert_eq!(detect_column_type(None, &s(&["0:00:00", "2:00:00", "3:00:00"]), &station), ColumnType::Offset);
    assert_eq!(detect_column_type(None, &s(&["6:00", "7:00"]), &arrival), ColumnType::DepartureTime);
    assert_eq!(detect_column_type(None, &s(&["5min", "10min"]), &station), ColumnType::Skip);
    assert_eq!(detect_column_type(None, &s(&["0:05", "0:10"]), &station), ColumnType::TravelTime);
}

#[test]
fn extract_line_identifier_patterns() {
    assert_eq!(extract_line_identifier(&[Some("R70 Time"), Some("R70 Dep")]), Some("R70".to_string()));
    assert_eq!(extract_line_identifier(&[None, Some("  "), Some("Line1 Arr")]), Some("Line1".to_string()));
    assert_eq!(extract_line_identifier(&[Some("Arr (S5x) y")]), Some("S5x".to_string()));
    assert_eq!(extract_line_identifier(&[Some("Arrival"), Some("Departure")]), None);
    assert_eq!(extract_line_identifier(&[]), None);
}

#[test]
fn detect_column_grouping_repeating_pattern() {
    let columns = vec![
        column(0, ColumnType::StationName, Some("Station")),
        column(1, ColumnType::ArrivalTime, Some("L1 Arr")),
        column(2, ColumnType::DepartureTime, Some("L1 Dep")),
        column(3, ColumnType::ArrivalTime, Some("L2 Arr")),
        column(4, ColumnType::DepartureTime, Some("L2 Dep")),
    ];
    let (pattern, groups, names) = detect_column_grouping(&columns);
    assert_eq!(pattern, Some(2));
    assert_eq!(groups.get(&1), Some(&0));
    assert_eq!(groups.get(&2), Some(&0));
    assert_eq!(groups.get(&3), Some(&1));
    assert_eq!(groups.get(&4), Some(&1));
    assert_eq!(groups.get(&0), None);
    assert_eq!(names.get(&0).map(String::as_str), Some("L1"));
    assert_eq!(names.get(&1).map(String::as_str), Some("L2"));
}

#[test]
fn detect_column_grouping_simple_format() {
    let columns = vec![
        column(0, ColumnType::StationName, Some("Station")),
        column(1, ColumnType::TravelTime, Some("R70")),
        column(2, ColumnType::TrackDistance, Some("km")),
        column(3, ColumnType::WaitTime, Some("Wait")),
    ];
    let (pattern, groups, names) = detect_column_grouping(&columns);
    assert_eq!(pattern, None);
    assert_eq!(groups.len(), 2);
    assert_eq!(groups.get(&1), Some(&0));
    assert_eq!(groups.get(&3), Some(&0));
    assert_eq!(names.get(&0).map(String::as_str), Some("R70"));

    let no_station = vec![column(0, ColumnType::ArrivalTime, None), column(1, ColumnType::ArrivalTime, None)];
    let (pattern, groups, names) = detect_column_grouping(&no_station);
    assert_eq!(pattern, None);
    assert!(groups.is_empty());
    assert!(names.is_empty());
}

#[test]
fn analyze_csv_empty_input() {
    assert!(analyze_csv("", Some("x".to_string())).is_none());
}

#[test]
fn analyze_csv_groups_and_defaults() {
    let csv = "Station,L1 Arr,L1 Dep,L2 Arr,L2 Dep\nA,6:00,6:01,7:00,7:01\nB,6:10,6:11,7:10,7:11\n";
    let config = analyze_csv(csv, Some("file".to_string())).expect("Should parse CSV");
    assert!(config.has_headers);
    assert_eq!(config.pattern_repeat, Some(2));
    assert_eq!(config.columns[1].column_type, ColumnType::ArrivalTime);
    assert_eq!(config.columns[2].column_type, ColumnType::DepartureTime);
    assert_eq!(config.columns[3].group_index, Some(1));
    assert_eq!(config.columns[0].group_index, None);
    assert_eq!(config.columns[1].sample_values, vec!["6:00".to_string(), "6:10".to_string()]);
    assert_eq!(config.group_line_names.get(&1).map(String::as_str), Some("L2"));
    assert_eq!(config.defaults.default_wait_time, 30);
    assert_eq!(config.filename.as_deref(), Some("file"));
    assert!(!config.disable_infrastructure);
}

use nimby_graph::csv_import::{
    build_line_groups, calculate_station_cumulative_time, is_monotonically_increasing, normalize_time_with_wraparound,
    CsvImportConfig, StationTimes,
};

const DAY_NS: i128 = 86_400_000_000_000;
const MIN_NS: i128 = 60_000_000_000;

#[test]
fn test_is_monotonically_increasing() {
    assert!(is_monotonically_increasing(&["08:00", "08:10", "08:10", "09:00"]));
    assert!(!is_monotonically_increasing(&["08:00", "07:59"]));
    assert!(is_monotonically_increasing(&["08:00", "junk", "08:30"]));
    assert!(!is_monotonically_increasing(&["junk", "08:30"]));
    assert!(!is_monotonically_increasing(&[]));
}

#[test]
fn test_normalize_time_with_wraparound() {
    assert_eq!(normalize_time_with_wraparound(10 * MIN_NS, None), 10 * MIN_NS);
    assert_eq!(normalize_time_with_wraparound(10 * MIN_NS, Some(5 * MIN_NS)), 10 * MIN_NS);
    assert_eq!(normalize_time_with_wraparound(5 * MIN_NS, Some(23 * 60 * MIN_NS)), 5 * MIN_NS + DAY_NS);
}

#[test]
fn test_calculate_station_cumulative_time_travel() {
    let mut tracker: i128 = 99;
    let t = StationTimes { arrival_time: None, departure_time: None, travel_time: Some(3 * MIN_NS), wait_time: None };
    assert_eq!(calculate_station_cumulative_time(true, None, &t, &mut tracker), Some(0));
    assert_eq!(tracker, 0);
    assert_eq!(calculate_station_cumulative_time(true, Some(0), &t, &mut tracker), Some(3 * MIN_NS));
    assert_eq!(calculate_station_cumulative_time(true, Some(3 * MIN_NS), &t, &mut tracker), Some(6 * MIN_NS));
    let none = StationTimes { arrival_time: None, departure_time: None, travel_time: None, wait_time: None };
    assert_eq!(calculate_station_cumulative_time(true, Some(6 * MIN_NS), &none, &mut tracker), None);
    assert_eq!(tracker, 6 * MIN_NS);
}

#[test]
fn test_calculate_station_cumulative_time_clock() {
    let mut tracker: i128 = 0;
    let first = StationTimes { arrival_time: None, departure_time: Some(23 * 60 * MIN_NS), travel_time: None, wait_time: None };
    assert_eq!(calculate_station_cumulative_time(false, None, &first, &mut tracker), Some(23 * 60 * MIN_NS));
    let next = StationTimes { arrival_time: Some(10 * MIN_NS), departure_time: None, travel_time: None, wait_time: None };
    assert_eq!(
        calculate_station_cumulative_time(false, Some(23 * 60 * MIN_NS), &next, &mut tracker),
        Some(10 * MIN_NS + DAY_NS)
    );
    let none = StationTimes { arrival_time: None, departure_time: Some(5), travel_time: None, wait_time: None };
    assert_eq!(calculate_station_cumulative_time(false, Some(0), &none, &mut tracker), None);
    assert_eq!(tracker, 0);
}

use nimby_graph::csv_import::ImportDefaults;

fn mapping(index: usize, t: ColumnType, group: Option<usize>) -> ColumnMapping {
    ColumnMapping {
        column_index: index,
        column_type: t,
        header: None,
        sample_values: vec![],
        auto_detected_type: t,
        group_index: group,
    }
}

fn config(columns: Vec<ColumnMapping>, names: Vec<(usize, &str)>, filename: Option<&str>) -> CsvImportConfig {
    CsvImportConfig {
        columns,
        has_headers: true,
        defaults: ImportDefaults::default(),
        pattern_repeat: None,
        group_line_names: names.into_iter().map(|(k, v)| (k, v.to_string())).collect(),
        filename: filename.map(|f| f.to_string()),
        disable_infrastructure: false,
    }
}

#[test]
fn test_build_line_groups_names_and_columns() {
    let cfg = config(
        vec![
            mapping(0, ColumnType::StationName, None),
            mapping(1, ColumnType::ArrivalTime, Some(0)),
            mapping(2, ColumnType::DepartureTime, Some(0)),
            mapping(3, ColumnType::ArrivalTime, Some(1)),
            mapping(4, ColumnType::Platform, Some(2)),
            mapping(5, ColumnType::WaitTime, Some(3)),
        ],
        vec![(1, "Express")],
        Some("timetable"),
    );
    let groups = build_line_groups(&cfg);
    assert_eq!(groups.len(), 3);
    assert_eq!(groups[0].line_name, "Line 1");
    assert_eq!(groups[0].arrival_time_column, Some(1));
    assert_eq!(groups[0].departure_time_column, Some(2));
    assert_eq!(groups[1].line_name, "Express");
    assert_eq!(groups[1].arrival_time_column, Some(3));
    assert_eq!(groups[1].departure_time_column, None);
    assert_eq!(groups[2].line_name, "Line 3");
    assert_eq!(groups[2].platform_column, Some(4));
}

#[test]
fn test_build_line_groups_single_group_uses_filename() {
    let cfg = config(
        vec![mapping(0, ColumnType::StationName, None), mapping(1, ColumnType::ArrivalTime, Some(0))],
        vec![],
        Some("timetable"),
    );
    let groups = build_line_groups(&cfg);
    assert_eq!(groups.len(), 1);
    assert_eq!(groups[0].line_name, "timetable");
}

#[test]
fn test_build_line_groups_none_without_columns() {
    let cfg = config(vec![mapping(0, ColumnType::StationName, None)], vec![], None);
    assert!(build_line_groups(&cfg).is_empty());
}

use nimby_graph::csv_import::{collect_station_data, LineGroupData};

fn group(arrival: Option<usize>, departure: Option<usize>, platform: Option<usize>, track_number: Option<usize>) -> LineGroupData {
    LineGroupData {
        line_name: "L".to_string(),
        arrival_time_column: arrival,
        departure_time_column: departure,
        offset_column: Some(4),
        travel_time_column: None,
        wait_column: None,
        platform_column: platform,
        track_number_column: track_number,
        track_distance_column: None,
        distance_offset_column: None,
    }
}

#[test]
fn test_collect_station_data() {
    let cfg = config(
        vec![mapping(0, ColumnType::StationName, None), mapping(1, ColumnType::ArrivalTime, Some(0))],
        vec![],
        None,
    );
    let records = vec![
        csv::StringRecord::from(vec!["Alpha", "8:00", "8:02", " 3 ", "", ""]),
        csv::StringRecord::from(vec!["  ", "9:00", "", "", "", ""]),
        csv::StringRecord::from(vec!["Beta", "", "x", "", "2", "0:05"]),
    ];
    let rows = collect_station_data(&records, &cfg, &[group(Some(1), Some(2), Some(3), Some(4))]);
    assert_eq!(rows.len(), 2);
    assert_eq!(rows[0].name, "Alpha");
    let d = &rows[0].line_data[0];
    assert_eq!(d.arrival_time, Some(8 * 3600 * 1_000_000_000));
    assert_eq!(d.departure_time, Some((8 * 3600 + 120) * 1_000_000_000));
    assert_eq!(d.platform, Some(" 3 ".to_string()));
    assert_eq!(d.track_number, None);
    assert_eq!(rows[1].name, "Beta");
    let d = &rows[1].line_data[0];
    assert_eq!(d.arrival_time, None);
    assert_eq!(d.departure_time, None);
    assert_eq!(d.platform, None);
    assert_eq!(d.track_number, Some(2));
}

#[test]
fn test_parse_time_to_duration() {
    assert_eq!(parse_time_to_duration("08:30"), Some(30_600 * 1_000_000_000));
    assert_eq!(parse_time_to_duration("8:05:09"), Some((8 * 3600 + 5 * 60 + 9) * 1_000_000_000));
    assert_eq!(parse_time_to_duration("00:00"), Some(0));
    assert_eq!(parse_time_to_duration("25:00"), None);
    assert_eq!(parse_time_to_duration("12:60"), None);
    assert_eq!(parse_time_to_duration(""), None);
    assert_eq!(parse_time_to_duration("noon"), None);
}

#[test]
fn analysing_records_matches_analysing_the_text() {
    let records = vec![
        csv::StringRecord::from(vec!["Station", "Arrival", "Departure"]),
        csv::StringRecord::from(vec!["Alpha", "08:00", "08:01"]),
        csv::StringRecord::from(vec!["Beta", "08:10", "08:12"]),
    ];
    let cfg = analyze_records(&records, Some("line".to_string())).unwrap();
    assert!(cfg.has_headers);
    let types: Vec<ColumnType> = cfg.columns.iter().map(|c| c.column_type).collect();
    assert_eq!(types, vec![ColumnType::StationName, ColumnType::ArrivalTime, ColumnType::DepartureTime]);
    assert_eq!(cfg.columns[0].sample_values, vec!["Alpha".to_string(), "Beta".to_string()]);
    assert_eq!(cfg.columns[1].header.as_deref(), Some("Arrival"));
    let text = analyze_csv("Station,Arrival,Departure\nAlpha,08:00,08:01\nBeta,08:10,08:12\n", Some("line".to_string())).unwrap();
    assert_eq!(text.columns.iter().map(|c| c.column_type).collect::<Vec<_>>(), types);
    assert!(analyze_records(&vec![], None).is_none());
}

#[test]
fn header_words_suggest_column_types() {
    let chars = |s: &str| s.chars().collect::<Vec<char>>();
    assert_eq!(header_column_type_exec(&chars("stop name"), false), Some(ColumnType::StationName));
    // A second station column is not suggested again.
    assert_eq!(header_column_type_exec(&chars("station"), true), None);
    assert_eq!(header_column_type_exec(&chars("km"), false), Some(ColumnType::TrackDistance));
    assert_eq!(header_column_type_exec(&chars("track"), false), Some(ColumnType::TrackNumber));
    assert_eq!(header_column_type_exec(&chars("dwell"), false), Some(ColumnType::WaitTime));
    assert_eq!(header_column_type_exec(&chars("notes"), false), None);
}

#[test]
fn station_rows_skip_the_header_and_unreadable_records() {
    let content = "Station,Arrival\nA,08:00\nB,08:10,extra\nC,08:20\n";
    let mut config = analyze_csv(content, None).unwrap();
    assert!(config.has_headers);
    // The simple format: every column belongs to the one line.
    for c in config.columns.iter_mut() {
        c.group_index = Some(0);
    }
    let groups = nimby_graph::csv_import::build_line_groups(&config);
    assert_eq!(groups.len(), 1);
    let rows = nimby_graph::csv_import::csv_station_rows(content, &config, &groups);
    let names: Vec<&str> = rows.iter().map(|r| r.name.as_str()).collect();
    assert_eq!(names, vec!["A", "C"]);
    assert!(rows[0].line_data[0].arrival_time.is_some());
    assert!(rows[1].line_data[0].arrival_time > rows[0].line_data[0].arrival_time);
}

#[test]
fn manual_departures_run_between_the_route_ends() {
    let edge = |source: usize, target: usize| GraphEdge {
        source,
        target,
        tracks: vec![Track { direction: TrackDirection::Bidirectional }],
        default_platform_source: None,
        default_platform_target: None,
    };
    let graph = RouteGraph { node_count: 3, edges: vec![edge(0, 1), edge(1, 2)], junctions: vec![None, None, None] };
    let seg = |e: usize| RouteSegment { edge_index: e, track_index: 0, origin_platform: 0, destination_platform: 0, duration: None, wait_time: 0 };
    assert_eq!(manual_departure_stations(&[seg(0), seg(1)], &graph), Some((0, 2)));
    assert_eq!(manual_departure_stations(&[seg(1), seg(0)], &graph), Some((2, 0)));
    assert_eq!(manual_departure_stations(&[seg(1)], &graph), Some((1, 2)));
    assert_eq!(manual_departure_stations(&[], &graph), None);
    assert_eq!(manual_departure_stations(&[seg(0), seg(5)], &graph), None);
    let d = create_manual_departure(&[seg(0), seg(1)], &graph, 28_800).unwrap();
    assert_eq!((d.from_station, d.to_station, d.time), (0, 2, 28_800));
    assert!(d.train_number.is_none() && d.repeat_interval.is_none() && d.repeat_until.is_none());
    assert!(create_manual_departure(&[], &graph, 0).is_none());
}
