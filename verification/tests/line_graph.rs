use nimby_graph::junction::Junction;
use nimby_graph::line::{RouteDirection, StationPosition};
use nimby_graph::route::{LineRoutes, RouteSegment};
use nimby_graph::routing::{GraphEdge, RouteGraph};
use nimby_graph::track::{Track, TrackDirection, TrackHandedness};

const SEC_NS: i128 = 1_000_000_000;

fn edge(source: usize, target: usize, dirs: &[TrackDirection]) -> GraphEdge {
    GraphEdge {
        source,
        target,
        tracks: dirs.iter().map(|d| Track { direction: *d }).collect(),
        default_platform_source: None,
        default_platform_target: None,
    }
}

/// A - B - C, each segment double track (forward, backward), and a lone node D.
fn network() -> RouteGraph {
    let double = [TrackDirection::Forward, TrackDirection::Backward];
    RouteGraph {
        node_count: 4,
        edges: vec![edge(0, 1, &double), edge(1, 2, &double)],
        junctions: vec![None, None, None, None],
    }
}

fn seg(edge_index: usize, track_index: usize) -> RouteSegment {
    RouteSegment {
        edge_index,
        track_index,
        origin_platform: 0,
        destination_platform: 0,
        duration: Some(300 * SEC_NS),
        wait_time: 30 * SEC_NS,
    }
}

fn line(forward: Vec<RouteSegment>, ret: Vec<RouteSegment>, sync: bool) -> LineRoutes {
    LineRoutes { forward_route: forward, return_route: ret, sync_routes: sync, first_stop_wait_time: 0 }
}

#[test]
fn test_validate_and_fix_track_indices_follows_travel_direction() {
    let g = network();
    let mut l = line(vec![seg(0, 1), seg(1, 0)], vec![seg(1, 0), seg(0, 1)], false);
    let fixed = l.validate_and_fix_track_indices(&g);
    assert_eq!(fixed, 2);
    // Forward route runs A -> B -> C: the backward track on the first segment is replaced.
    assert_eq!(l.forward_route[0].track_index, 0);
    assert_eq!(l.forward_route[1].track_index, 0);
    // Return route runs C -> B -> A: both segments are travelled backward.
    assert_eq!(l.return_route[0].track_index, 1);
    assert_eq!(l.return_route[1].track_index, 1);
    // Nothing but tracks changes.
    assert_eq!(l.forward_route[0].duration, Some(300 * SEC_NS));
    assert_eq!(l.return_route[1].wait_time, 30 * SEC_NS);
}

#[test]
fn test_validate_and_fix_track_indices_out_of_range_and_unknown_edges() {
    let g = network();
    let mut l = line(vec![seg(0, 7), seg(42, 3)], vec![], false);
    let fixed = l.validate_and_fix_track_indices(&g);
    assert_eq!(fixed, 1);
    assert_eq!(l.forward_route[0].track_index, 0);
    // A segment over an edge the network does not have is left alone.
    assert_eq!(l.forward_route[1].track_index, 3);
}

#[test]
fn test_validate_and_fix_track_indices_nothing_to_fix() {
    let g = network();
    let mut l = line(vec![seg(0, 0), seg(1, 0)], vec![seg(1, 1), seg(0, 1)], false);
    assert_eq!(l.validate_and_fix_track_indices(&g), 0);
}

#[test]
fn test_get_station_path() {
    let g = network();
    let l = line(vec![seg(0, 0), seg(1, 0)], vec![], false);
    assert_eq!(l.get_station_path(&g), vec![0, 1, 2]);
    let with_unknown = line(vec![seg(1, 0), seg(9, 0), seg(0, 0)], vec![], false);
    assert_eq!(with_unknown.get_station_path(&g), vec![1, 2, 0]);
    assert_eq!(line(vec![], vec![], false).get_station_path(&g), Vec::<usize>::new());
}

#[test]
fn test_add_station_to_route_at_end() {
    let g = network();
    let mut l = line(vec![seg(0, 0)], vec![], false);
    let added = l.add_station_to_route(2, &g, RouteDirection::Forward, StationPosition::End, TrackHandedness::RightHand, 45 * SEC_NS, &[2, 2, 2, 1], &[false; 4]);
    assert!(added);
    assert_eq!(l.forward_route.len(), 2);
    assert_eq!(l.forward_route[0], seg(0, 0));
    let new = l.forward_route[1];
    assert_eq!(new.edge_index, 1);
    assert_eq!(new.track_index, 0);
    assert_eq!(new.origin_platform, 0);
    assert_eq!(new.destination_platform, 1);
    assert_eq!(new.duration, None);
    assert_eq!(new.wait_time, 45 * SEC_NS);
}

#[test]
fn test_add_station_to_route_at_start() {
    let g = network();
    let mut l = line(vec![seg(1, 0)], vec![], false);
    let added = l.add_station_to_route(0, &g, RouteDirection::Forward, StationPosition::Start, TrackHandedness::RightHand, 45 * SEC_NS, &[2, 2, 2, 1], &[true, false, false, false]);
    assert!(added);
    assert_eq!(l.forward_route.len(), 2);
    assert_eq!(l.forward_route[0].edge_index, 0);
    // Leaving a passing loop: no dwell.
    assert_eq!(l.forward_route[0].wait_time, 0);
    assert_eq!(l.forward_route[1], seg(1, 0));
}

#[test]
fn test_add_station_to_return_route_travels_backward() {
    let g = network();
    // A lone segment is taken to run from its source to its target, so this
    // return route ends at C; joining A runs C -> B -> A, against both segments.
    let mut l = line(vec![], vec![seg(1, 1)], false);
    let added = l.add_station_to_route(0, &g, RouteDirection::Return, StationPosition::End, TrackHandedness::RightHand, 45 * SEC_NS, &[2, 2, 2, 1], &[false; 4]);
    assert!(added);
    let edges: Vec<usize> = l.return_route.iter().map(|s| s.edge_index).collect();
    assert_eq!(edges, vec![1, 1, 0]);
    assert_eq!(l.return_route[1].track_index, 1);
    assert_eq!(l.return_route[2].track_index, 1);
    assert!(l.forward_route.is_empty());
}

#[test]
fn test_add_station_to_route_without_path() {
    let g = network();
    let mut l = line(vec![seg(0, 0)], vec![], false);
    let added = l.add_station_to_route(3, &g, RouteDirection::Forward, StationPosition::End, TrackHandedness::RightHand, 45 * SEC_NS, &[2, 2, 2, 1], &[false; 4]);
    assert!(!added);
    assert_eq!(l.forward_route, vec![seg(0, 0)]);
}

#[test]
fn test_add_station_to_empty_route() {
    let g = network();
    let mut l = line(vec![], vec![], false);
    assert!(l.add_station_to_route(2, &g, RouteDirection::Forward, StationPosition::End, TrackHandedness::RightHand, 45 * SEC_NS, &[2, 2, 2, 1], &[false; 4]));
    assert!(l.forward_route.is_empty());
}

#[test]
fn test_add_station_through_junction_does_not_dwell_there() {
    let double = [TrackDirection::Forward, TrackDirection::Backward];
    let g = RouteGraph {
        node_count: 3,
        edges: vec![edge(0, 1, &double), edge(1, 2, &double)],
        junctions: vec![None, Some(Junction { name: None, routing_rules: vec![] }), None],
    };
    let mut l = line(vec![], vec![], false);
    assert!(l.create_route_between_stations(Some(0), Some(1), &g, RouteDirection::Forward, TrackHandedness::RightHand, 45 * SEC_NS, &[1, 1, 1], &[false; 3]));
    assert!(l.add_station_to_route(2, &g, RouteDirection::Forward, StationPosition::End, TrackHandedness::RightHand, 45 * SEC_NS, &[1, 1, 1], &[false; 3]));
    assert_eq!(l.forward_route.len(), 2);
    assert_eq!(l.forward_route[1].wait_time, 0);
}

#[test]
fn test_create_route_between_stations_syncs_return_route() {
    let g = network();
    let mut l = line(vec![], vec![], true);
    let created = l.create_route_between_stations(Some(0), Some(2), &g, RouteDirection::Forward, TrackHandedness::RightHand, 45 * SEC_NS, &[2, 2, 2, 1], &[false; 4]);
    assert!(created);
    let edges: Vec<usize> = l.forward_route.iter().map(|s| s.edge_index).collect();
    assert_eq!(edges, vec![0, 1]);
    assert!(l.forward_route.iter().all(|s| s.track_index == 0 && s.duration.is_none() && s.wait_time == 45 * SEC_NS));
    let back: Vec<usize> = l.return_route.iter().map(|s| s.edge_index).collect();
    assert_eq!(back, vec![1, 0]);
}

#[test]
fn test_create_route_between_stations_on_return_route() {
    let g = network();
    let mut l = line(vec![], vec![], true);
    assert!(l.create_route_between_stations(Some(2), Some(0), &g, RouteDirection::Return, TrackHandedness::RightHand, 45 * SEC_NS, &[2, 2, 2, 1], &[false, true, false, false]));
    assert_eq!(l.return_route.len(), 2);
    assert!(l.return_route.iter().all(|s| s.track_index == 1));
    // The segment leaving B, a passing loop, does not dwell.
    let from_b: Vec<i128> = l.return_route.iter().map(|s| s.wait_time).collect();
    assert!(from_b.contains(&0));
    assert!(l.forward_route.is_empty());
}

#[test]
fn test_create_route_between_unknown_or_unconnected_stations() {
    let g = network();
    let mut l = line(vec![seg(0, 0)], vec![], false);
    assert!(!l.create_route_between_stations(None, Some(2), &g, RouteDirection::Forward, TrackHandedness::RightHand, 0, &[], &[]));
    assert!(!l.create_route_between_stations(Some(0), Some(3), &g, RouteDirection::Forward, TrackHandedness::RightHand, 0, &[], &[]));
    assert!(!l.create_route_between_stations(Some(1), Some(1), &g, RouteDirection::Forward, TrackHandedness::RightHand, 0, &[], &[]));
    assert_eq!(l.forward_route, vec![seg(0, 0)]);
}

#[test]
fn test_route_endpoints_skip_passing_loops() {
    // A - B - C - D, with A and D passing loops.
    let double = [TrackDirection::Forward, TrackDirection::Backward];
    let g = RouteGraph {
        node_count: 4,
        edges: vec![edge(0, 1, &double), edge(1, 2, &double), edge(3, 2, &double)],
        junctions: vec![None, None, None, None],
    };
    let l = line(vec![seg(0, 0), seg(1, 0), seg(2, 1)], vec![], false);
    let loops = [true, false, false, true];
    assert_eq!(l.get_forward_route_endpoints(&g, &loops), Some((1, 2)));
    assert_eq!(l.get_return_route_endpoints(&g, &loops), Some((2, 1)));
    assert_eq!(l.get_forward_route_endpoints(&g, &[false; 4]), Some((0, 3)));
    assert_eq!(l.get_forward_route_endpoints(&g, &[true; 4]), None);
    assert_eq!(line(vec![], vec![], false).get_return_route_endpoints(&g, &[]), None);
}

#[test]
fn test_track_repair_is_idempotent() {
    // B -> C can only be used forward; the return route runs it backward.
    let g = RouteGraph {
        node_count: 3,
        edges: vec![
            edge(0, 1, &[TrackDirection::Forward, TrackDirection::Backward]),
            edge(1, 2, &[TrackDirection::Forward]),
        ],
        junctions: vec![None, None, None],
    };
    let mut l = line(vec![seg(0, 1), seg(1, 4)], vec![seg(1, 0), seg(0, 0)], false);
    let first = l.validate_and_fix_track_indices(&g);
    assert_eq!(first, 4);
    let once = (l.forward_route.clone(), l.return_route.clone());
    let second = l.validate_and_fix_track_indices(&g);
    // The segment without a usable track is "repaired" again, to the same track.
    assert_eq!(second, 1);
    assert_eq!((l.forward_route.clone(), l.return_route.clone()), once);
}

#[test]
fn test_reroute_deleted_edge() {
    // A -> B -> C, with the direct segment B -> C deleted: the network left
    // has A - B and the alternative B - J - C through a junction.
    let g = RouteGraph {
        node_count: 4,
        edges: vec![
            edge(0, 1, &[TrackDirection::Bidirectional]),
            edge(1, 3, &[TrackDirection::Bidirectional]),
            edge(3, 2, &[TrackDirection::Bidirectional]),
        ],
        junctions: vec![None, None, None, Some(Junction { name: Some("Junction".to_string()), routing_rules: vec![] })],
    };
    let (a_b, deleted) = (0, 7);
    let (b, c) = (1, 2);
    let mut l = line(vec![seg(a_b, 0), seg(deleted, 0)], vec![], true);

    let changed = l.reroute_deleted_edge(deleted, b, c, &g);

    assert!(changed);
    assert_eq!(l.forward_route.len(), 3);
    assert_eq!(l.forward_route[0].edge_index, a_b);
    // The detour shares the running time and keeps the dwell on its first segment.
    assert_eq!(l.forward_route[1].edge_index, 1);
    assert_eq!(l.forward_route[2].edge_index, 2);
    assert_eq!(l.forward_route[1].duration, Some(150 * SEC_NS));
    assert_eq!(l.forward_route[2].duration, Some(150 * SEC_NS));
    assert_eq!(l.forward_route[1].wait_time, 30 * SEC_NS);
    assert_eq!(l.forward_route[2].wait_time, 0);
}

#[test]
fn test_reroute_deleted_edge_no_alternative() {
    // A -> B, with its only segment deleted.
    let g = RouteGraph { node_count: 2, edges: vec![], junctions: vec![None, None] };
    let deleted = 0;
    let (a, b) = (0, 1);
    let mut l = line(vec![seg(deleted, 0)], vec![], true);

    let changed = l.reroute_deleted_edge(deleted, a, b, &g);

    assert!(!changed);
    assert_eq!(l.forward_route.len(), 1);
    assert_eq!(l.forward_route[0].edge_index, deleted);
}

#[test]
fn test_reroute_divides_time_as_time_deltas_do() {
    // A - B - C - D replaces a deleted A -> D taking 1 s: each of the three
    // segments gets 333_333_333 ns; the track is capped at each segment's last one.
    let g = RouteGraph {
        node_count: 4,
        edges: vec![
            edge(0, 1, &[TrackDirection::Forward, TrackDirection::Backward]),
            edge(1, 2, &[TrackDirection::Bidirectional]),
            edge(2, 3, &[TrackDirection::Forward, TrackDirection::Backward]),
        ],
        junctions: vec![None; 4],
    };
    let deleted = 9;
    let mut s = seg(deleted, 1);
    s.duration = Some(SEC_NS);
    s.origin_platform = 2;
    s.destination_platform = 3;
    let mut l = line(vec![], vec![s, seg(0, 0)], false);
    assert!(l.reroute_deleted_edge(deleted, 0, 3, &g));
    let r = &l.return_route;
    assert_eq!(r.len(), 4);
    assert_eq!(r.iter().map(|x| x.duration).take(3).collect::<Vec<_>>(), vec![Some(333_333_333); 3]);
    assert_eq!(r.iter().map(|x| x.track_index).take(3).collect::<Vec<_>>(), vec![1, 0, 1]);
    assert_eq!((r[0].origin_platform, r[0].destination_platform), (2, 0));
    assert_eq!((r[2].origin_platform, r[2].destination_platform), (0, 3));
    assert_eq!(r[3], seg(0, 0));
}
