use nimby_graph::jtraingraph::{
    calculate_wait_time, create_route_segments, find_platform_index, get_stop_pattern, group_trains_by_pattern,
    parse_time, plan_jtraingraph_lines, route_station_pairs, HopInfo, JTrainGraphPlatform, JTrainGraphStation,
    JTrainGraphStations, JTrainGraphTimetable, JTrainGraphTrainInfo, JTrainGraphTrainTime, JTrainGraphTrains,
    PlannedSegment,
};
use nimby_graph::track::{Track, TrackDirection};
use std::collections::HashMap;
use nimby_graph::jtraingraph_network::{build_jtraingraph_hops, create_jtraingraph_stations, create_jtraingraph_tracks, plan_jtraingraph_segments, StationTable};
use nimby_graph::jtraingraph::StopPattern;
use nimby_graph::routing::RouteGraph;
use nimby_graph::track::TrackHandedness;

fn time(a: &str, d: &str, at: &str, dt: &str) -> JTrainGraphTrainTime {
    JTrainGraphTrainTime {
        arrival: a.to_string(),
        departure: d.to_string(),
        arrival_track: at.to_string(),
        departure_track: dt.to_string(),
    }
}

fn train(name: &str, times: Vec<JTrainGraphTrainTime>) -> JTrainGraphTrainInfo {
    JTrainGraphTrainInfo {
        name: name.to_string(),
        comment: String::new(),
        color: String::new(),
        show: true,
        size: String::new(),
        symbol: String::new(),
        days: String::new(),
        id: String::new(),
        times,
    }
}

fn station(name: &str, platforms: &[&str]) -> JTrainGraphStation {
    JTrainGraphStation {
        name: name.to_string(),
        km_left: String::new(),
        km_right: String::new(),
        color: String::new(),
        show: true,
        size: String::new(),
        symbol: String::new(),
        show_route_in: false,
        show_route_all: false,
        tracks: "1".to_string(),
        default_platform_in: String::new(),
        default_platform_away: String::new(),
        platforms: platforms.iter().map(|p| JTrainGraphPlatform { name: p.to_string() }).collect(),
    }
}

fn timetable(stations: Vec<JTrainGraphStation>, trains_in: Vec<JTrainGraphTrainInfo>, trains_away: Vec<JTrainGraphTrainInfo>) -> JTrainGraphTimetable {
    let s = String::new;
    JTrainGraphTimetable {
        version: "012".to_string(),
        name: s(),
        t_min: s(),
        t_max: s(),
        days: s(),
        bg_color: s(),
        station_font: s(),
        train_font: s(),
        header_font: s(),
        time_font: s(),
        stations_horizontal: false,
        station_line: s(),
        show_km: false,
        start_station: s(),
        end_station: s(),
        column_number: s(),
        extra_width: s(),
        hour_pixel_height: s(),
        show_vertical: s(),
        show_time: false,
        show_color: false,
        highlight_interval: s(),
        highlight_color: s(),
        print: false,
        print_columns: s(),
        min_print_pause: s(),
        round_time: false,
        show_multi: false,
        default_travel_time: s(),
        override_default_brake_time: s(),
        is_tv: false,
        stations: JTrainGraphStations { stations },
        trains: JTrainGraphTrains { trains_in, trains_away },
    }
}

#[test]
fn parse_time_formats() {
    assert_eq!(parse_time("08:15"), Some(8 * 3600 + 15 * 60));
    assert_eq!(parse_time("08:15:30"), Some(8 * 3600 + 15 * 60 + 30));
    assert_eq!(parse_time("0:00"), Some(0));
    assert_eq!(parse_time(""), None);
    assert_eq!(parse_time("24:00"), None);
    assert_eq!(parse_time("12:60"), None);
    assert_eq!(parse_time("12"), None);
    assert_eq!(parse_time("1:2:3:4"), None);
    assert_eq!(parse_time("ab:cd"), None);
}

#[test]
fn stop_pattern_forward_and_return() {
    let t = train(
        "IC 1",
        vec![
            time("", "08:00", "", "1"),
            time("", "", "", ""),
            time("08:30", "08:32", "2", "3"),
            time("09:00", "", "4", ""),
        ],
    );
    let p = get_stop_pattern(&t, false).expect("pattern");
    assert_eq!(p.station_indices, vec![0, 2, 3]);
    assert_eq!(p.durations, vec![30 * 60, 28 * 60]);
    assert_eq!(p.platforms[1], ("2".to_string(), "3".to_string()));

    // Read as a return train, the hops run from the last stop back; there is
    // no departure time at the last stop, so there is no pattern.
    assert_eq!(get_stop_pattern(&t, true), None);

    let back = train(
        "IC 2",
        vec![time("10:00", "", "1", ""), time("", "", "", ""), time("09:30", "09:32", "2", "3"), time("", "09:00", "", "4")],
    );
    let r = get_stop_pattern(&back, true).expect("pattern");
    assert_eq!(r.station_indices, vec![0, 2, 3]);
    assert_eq!(r.durations, vec![30 * 60, 28 * 60]);
    assert_eq!(r.platforms[0], ("".to_string(), "1".to_string()));
    assert_eq!(r.platforms[1], ("3".to_string(), "2".to_string()));
}

#[test]
fn stop_pattern_crosses_midnight() {
    let t = train("N", vec![time("", "23:50", "", ""), time("00:10", "", "", "")]);
    let p = get_stop_pattern(&t, false).expect("pattern");
    assert_eq!(p.durations, vec![20 * 60]);
    let single = train("S", vec![time("", "10:00", "", ""), time("", "", "", "")]);
    assert_eq!(get_stop_pattern(&single, false), None);
    let bad = train("B", vec![time("", "10:00", "", ""), time("later", "", "", "")]);
    assert_eq!(get_stop_pattern(&bad, false), None);
}

#[test]
fn platform_lookup_by_name() {
    let ps: Vec<JTrainGraphPlatform> =
        ["1", "2", "2"].iter().map(|p| JTrainGraphPlatform { name: p.to_string() }).collect();
    assert_eq!(find_platform_index(&ps, "2"), Some(1));
    assert_eq!(find_platform_index(&ps, "3"), None);
    assert_eq!(find_platform_index(&ps, ""), None);
}

#[test]
fn wait_time_from_first_train() {
    let a = train("a", vec![time("", "08:00", "", ""), time("08:10", "08:12", "", "")]);
    let b = train("b", vec![time("", "09:00", "", ""), time("09:10", "09:20", "", "")]);
    let mut map = HashMap::new();
    calculate_wait_time(&[&a, &b], 1, &mut map);
    assert_eq!(map.get(&1), Some(&120));
    calculate_wait_time(&[&a, &b], 0, &mut map);
    assert_eq!(map.get(&0), None);
    let n = train("n", vec![time("23:59", "00:01", "", "")]);
    calculate_wait_time(&[&n], 0, &mut map);
    assert_eq!(map.get(&0), Some(&120));
    calculate_wait_time(&[], 0, &mut map);
    assert_eq!(map.len(), 2);
}

#[test]
fn trains_group_by_pattern_in_key_order() {
    let fast = |n: &str, dep: &str, arr: &str| train(n, vec![time("", dep, "", ""), time("", "", "", ""), time(arr, "", "", "")]);
    let slow = |n: &str, dep: &str, mid: &str, arr: &str| {
        train(n, vec![time("", dep, "", ""), time(mid, mid, "", ""), time(arr, "", "", "")])
    };
    let trains = JTrainGraphTrains {
        trains_in: vec![
            slow("s1", "08:00", "08:10", "08:20"),
            fast("f1", "08:00", "08:15"),
            fast("f2", "09:00", "09:15"),
            train("lonely", vec![time("", "10:00", "", "")]),
        ],
        trains_away: vec![train("r1", vec![time("10:15", "", "", ""), time("", "", "", ""), time("", "10:00", "", "")])],
    };
    let groups = group_trains_by_pattern(&trains);
    assert_eq!(groups.len(), 3);
    // [0, 1, 2] sorts before [0, 2]; equal patterns list forward before return.
    assert_eq!(groups[0].key.pattern.station_indices, vec![0, 1, 2]);
    assert_eq!(groups[0].trains, vec![0]);
    assert_eq!(groups[1].key.pattern.station_indices, vec![0, 2]);
    assert!(!groups[1].key.is_return);
    assert_eq!(groups[1].trains, vec![1, 2]);
    assert_eq!(groups[2].key.pattern.station_indices, vec![0, 2]);
    assert!(groups[2].key.is_return);
    assert_eq!(groups[2].trains, vec![0]);
}

#[test]
fn line_plans_name_lines_and_collect_departures() {
    let stations = vec![station("Den Haag", &["1", "2"]), station("Gouda", &["3"]), station("Utrecht", &[])];
    let fwd = |n: &str, dep: &str| train(n, vec![time("", dep, "", "2"), time("", "", "", ""), time("09:00", "", "", "")]);
    let tt = timetable(
        stations,
        vec![fwd("a", "08:00"), fwd("b", "08:00")],
        vec![train("r", vec![time("10:00", "", "", ""), time("", "", "", ""), time("", "09:30", "", "")])],
    );
    let existing = vec!["Den Haag - Utrecht".to_string()];
    let (groups, plans) = plan_jtraingraph_lines(&tt, &existing);
    assert_eq!(groups.len(), 2);
    // The return group (30 minutes) sorts before the forward one (60 minutes).
    assert!(groups[0].key.is_return);
    assert_eq!(plans[0].line_id, "Utrecht - Den Haag");
    assert_eq!(plans[0].departure_station, 2);
    assert_eq!(plans[0].arrival_station, 0);
    assert_eq!(plans[0].departures, vec![(0, 9 * 3600 + 30 * 60)]);
    assert_eq!(plans[1].line_id, "Den Haag - Utrecht (1)");
    assert_eq!(plans[1].departure_station, 0);
    assert_eq!(plans[1].arrival_station, 2);
    assert_eq!(plans[1].departures, vec![(0, 8 * 3600), (1, 8 * 3600)]);
}

fn hop(from: usize, to: usize, edge: Option<usize>, tracks: Vec<TrackDirection>, origin: &[&str], dest: &[&str]) -> HopInfo {
    HopInfo {
        from_station: from,
        to_station: to,
        edge_index: edge,
        tracks: tracks.into_iter().map(|direction| Track { direction }).collect(),
        origin_platforms: origin.iter().map(|p| JTrainGraphPlatform { name: p.to_string() }).collect(),
        destination_platforms: dest.iter().map(|p| JTrainGraphPlatform { name: p.to_string() }).collect(),
        default_origin_platform: 0,
        default_destination_platform: 0,
    }
}

#[test]
fn route_segments_follow_the_pattern() {
    let (backward, forward) = (TrackDirection::Backward, TrackDirection::Forward);
    let t = train(
        "IC",
        vec![time("", "08:00", "", "2"), time("", "", "", ""), time("08:30", "08:33", "B", ""), time("09:00", "", "", "")],
    );
    let pattern = get_stop_pattern(&t, false).expect("pattern");
    assert_eq!(route_station_pairs(0, 3, false), vec![(0, 1), (1, 2), (2, 3)]);
    assert_eq!(route_station_pairs(0, 3, true), vec![(3, 2), (2, 1), (1, 0)]);
    let hops = vec![
        hop(0, 1, Some(10), vec![backward, forward], &["1", "2"], &[]),
        hop(1, 2, Some(11), vec![], &[], &["A", "B"]),
        hop(2, 3, Some(12), vec![forward], &["A", "B"], &["1"]),
    ];
    let segs = create_route_segments(&pattern, &[&t], 0, 3, &hops, false).expect("segments");
    assert_eq!(
        segs,
        vec![
            PlannedSegment { edge_index: 10, track_index: 1, origin_platform: 1, destination_platform: 1, duration: Some(1800), wait_time: 0 },
            PlannedSegment { edge_index: 11, track_index: 0, origin_platform: 1, destination_platform: 1, duration: None, wait_time: 180 },
            PlannedSegment { edge_index: 12, track_index: 0, origin_platform: 1, destination_platform: 1, duration: Some(1620), wait_time: 0 },
        ]
    );
    let broken = vec![hops[0].clone_hop(), hop(1, 2, None, vec![], &[], &[]), hops[2].clone_hop()];
    assert_eq!(
        create_route_segments(&pattern, &[&t], 0, 3, &broken, false),
        Err("No edge found between stations 1 and 2".to_string())
    );
}

trait CloneHop {
    fn clone_hop(&self) -> HopInfo;
}

impl CloneHop for HopInfo {
    fn clone_hop(&self) -> HopInfo {
        HopInfo {
            from_station: self.from_station,
            to_station: self.to_station,
            edge_index: self.edge_index,
            tracks: self.tracks.clone(),
            origin_platforms: self.origin_platforms.iter().map(|p| JTrainGraphPlatform { name: p.name.clone() }).collect(),
            destination_platforms: self.destination_platforms.iter().map(|p| JTrainGraphPlatform { name: p.name.clone() }).collect(),
            default_origin_platform: self.default_origin_platform,
            default_destination_platform: self.default_destination_platform,
        }
    }
}

#[test]
fn network_builder_matches_stations_and_joins_them() {

    // An existing station "B" (node 0) with its own platforms.
    let mut graph = RouteGraph { node_count: 1, edges: vec![], junctions: vec![None] };
    let mut table = StationTable {
        names: vec![Some("B".to_string())],
        platforms: vec![vec![JTrainGraphPlatform { name: "x".to_string() }]],
    };
    let mut a = station("A", &[]);
    a.tracks = "2".to_string();
    a.default_platform_away = "2".to_string();
    let mut b = station("B", &["1", "2", "3"]);
    b.default_platform_in = "3".to_string();
    b.tracks = "bad".to_string();
    let c = station("C", &["1"]);
    let tt = timetable(vec![a, b, c], vec![], vec![]);

    let nodes = create_jtraingraph_stations(&tt, &mut graph, &mut table);
    assert_eq!(nodes, vec![1, 0, 2]);
    assert_eq!(graph.node_count, 3);
    // A new station without timetable platforms gets "1" and "2"; timetable platforms replace a node's.
    let names = |n: usize| table.platforms[n].iter().map(|p| p.name.clone()).collect::<Vec<_>>();
    assert_eq!(names(1), vec!["1", "2"]);
    assert_eq!(names(0), vec!["1", "2", "3"]);

    let map = create_jtraingraph_tracks(&tt, &mut graph, &nodes);
    assert_eq!(map, vec![((1, 0), 0), ((0, 2), 1)]);
    assert_eq!(graph.edges[0].tracks.iter().map(|t| t.direction).collect::<Vec<_>>(), vec![TrackDirection::Forward, TrackDirection::Backward]);
    // "bad" is no number: one track.
    assert_eq!(graph.edges[1].tracks.len(), 1);
    assert_eq!(graph.edges[0].default_platform_target, Some(2));
    assert_eq!(graph.edges[0].default_platform_source, None);

    let hops = build_jtraingraph_hops(&graph, &table, &nodes, &map, 0, 2, true, TrackHandedness::RightHand);
    assert_eq!(hops.len(), 2);
    assert_eq!((hops[0].from_station, hops[0].to_station, hops[0].edge_index), (2, 1, Some(1)));
    assert_eq!((hops[1].from_station, hops[1].to_station, hops[1].edge_index), (1, 0, Some(0)));
    assert_eq!(hops[1].tracks.len(), 2);
    assert_eq!(hops[1].origin_platforms.len(), 3);
    // The destination default is the segment's configured arrival platform, as in the importer.
    assert_eq!(hops[1].default_destination_platform, 2);
    assert_eq!(hops[0].default_origin_platform, 0);
}

#[test]
fn planned_segments_use_the_segment_between_their_stations() {
    let mut graph = RouteGraph { node_count: 0, edges: vec![], junctions: vec![] };
    let mut table = StationTable { names: vec![], platforms: vec![] };
    let tt = timetable(vec![station("A", &["1"]), station("B", &["1"]), station("C", &["1"])], vec![], vec![]);
    let nodes = create_jtraingraph_stations(&tt, &mut graph, &mut table);
    let map = create_jtraingraph_tracks(&tt, &mut graph, &nodes);
    assert_eq!(map, vec![((0, 1), 0), ((1, 2), 1)]);
    let pattern = StopPattern {
        station_indices: vec![0, 1, 2],
        durations: vec![60, 120],
        platforms: vec![("1".to_string(), "1".to_string()); 3],
    };
    let trains: Vec<&JTrainGraphTrainInfo> = vec![];
    let planned = plan_jtraingraph_segments(&graph, &table, &nodes, &map, &pattern, &trains, 0, 2, false, TrackHandedness::RightHand).unwrap();
    assert_eq!(planned.iter().map(|s| s.edge_index).collect::<Vec<_>>(), vec![0, 1]);
    assert_eq!(planned.iter().map(|s| s.duration).collect::<Vec<_>>(), vec![Some(60), Some(120)]);
    let back = plan_jtraingraph_segments(&graph, &table, &nodes, &map, &pattern, &trains, 0, 2, true, TrackHandedness::RightHand).unwrap();
    assert_eq!(back.iter().map(|s| s.edge_index).collect::<Vec<_>>(), vec![1, 0]);
    // Without the second segment in the edge map, the plan fails at that hop.
    let short_map = vec![map[0]];
    let err = plan_jtraingraph_segments(&graph, &table, &nodes, &short_map, &pattern, &trains, 0, 2, false, TrackHandedness::RightHand).unwrap_err();
    assert_eq!(err, "No edge found between stations 1 and 2");
}
