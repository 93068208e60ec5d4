use nimby_graph::line::generate_duplicate_name;
use nimby_graph::route::{update_single_route, LineRoutes, RouteSegment};
use nimby_graph::track::{Track, TrackDirection};

const NANOS_PER_SECOND: i128 = 1_000_000_000;

fn create_test_segment(edge_index: usize) -> RouteSegment {
    RouteSegment {
        edge_index,
        track_index: 0,
        origin_platform: 0,
        destination_platform: 0,
        duration: Some(5 * 60 * NANOS_PER_SECOND),
        wait_time: 30 * NANOS_PER_SECOND,
    }
}

fn routes(forward: Vec<RouteSegment>, ret: Vec<RouteSegment>) -> LineRoutes {
    LineRoutes { forward_route: forward, return_route: ret, sync_routes: true, first_stop_wait_time: 0 }
}

#[test]
fn test_uses_edge() {
    let line = routes(vec![create_test_segment(1), create_test_segment(2)], vec![create_test_segment(3)]);
    assert!(line.uses_edge(1));
    assert!(line.uses_edge(2));
    assert!(line.uses_edge(3));
    assert!(!line.uses_edge(4));
}

#[test]
fn test_uses_any_edge() {
    let line = routes(vec![create_test_segment(1), create_test_segment(2)], vec![]);
    assert!(line.uses_any_edge(&[1, 5, 6]));
    assert!(line.uses_any_edge(&[2]));
    assert!(!line.uses_any_edge(&[3, 4, 5]));
}

#[test]
fn test_update_route_after_deletion_with_bypass() {
    let mut line = routes(vec![create_test_segment(1), create_test_segment(2), create_test_segment(3)], vec![]);
    // Simulate deleting a station that used edges 1 and 2, creating bypass edge 10
    let removed_edges = vec![1, 2];
    let bypass_mapping = vec![((1, 2), 10)];
    line.update_route_after_deletion(&removed_edges, &bypass_mapping);

    // Should have bypass edge 10 and edge 3
    assert_eq!(line.forward_route.len(), 2);
    assert_eq!(line.forward_route[0].edge_index, 10);
    assert_eq!(line.forward_route[1].edge_index, 3);

    // Check combined duration
    let expected_duration = (5 * 60 + 30 + 5 * 60) * NANOS_PER_SECOND;
    assert_eq!(line.forward_route[0].duration, Some(expected_duration));
}

#[test]
fn test_update_route_after_deletion_without_bypass() {
    let mut line = routes(vec![create_test_segment(1), create_test_segment(2)], vec![]);
    // Remove edge 1 but no bypass mapping
    let removed_edges = vec![1];
    let bypass_mapping: Vec<((usize, usize), usize)> = vec![];
    line.update_route_after_deletion(&removed_edges, &bypass_mapping);

    // Edge 1 should be removed, edge 2 should remain
    assert_eq!(line.forward_route.len(), 1);
    assert_eq!(line.forward_route[0].edge_index, 2);
}

#[test]
fn test_fix_track_indices_after_change() {
    let tracks = vec![Track { direction: TrackDirection::Forward }, Track { direction: TrackDirection::Backward }];
    let mut line = routes(
        vec![RouteSegment {
            edge_index: 0,
            track_index: 5, // Out of bounds
            origin_platform: 0,
            destination_platform: 0,
            duration: Some(5 * 60 * NANOS_PER_SECOND),
            wait_time: 30 * NANOS_PER_SECOND,
        }],
        vec![],
    );
    line.fix_track_indices_after_change(0, 2, Some(&tracks));
    // Track index should be fixed to 0 (Forward track)
    assert_eq!(line.forward_route[0].track_index, 0);
}

#[test]
fn test_route_segment_equality() {
    let seg1 = create_test_segment(1);
    let seg2 = create_test_segment(1);
    let seg3 = create_test_segment(2);
    assert_eq!(seg1, seg2);
    assert_ne!(seg1, seg3);
}

#[test]
fn test_replace_split_edge() {
    let mut line = routes(
        vec![create_test_segment(5), create_test_segment(10), create_test_segment(15)],
        vec![create_test_segment(15), create_test_segment(10), create_test_segment(5)],
    );
    // Split edge 10 into edges 20 and 21; with two platforms at the new node and
    // right-hand running, trains arrive on the last platform and leave from the first.
    line.replace_split_edge(10, 20, 21, 1, 1, 0, 1, 0);

    let fwd: Vec<usize> = line.forward_route.iter().map(|s| s.edge_index).collect();
    assert_eq!(fwd, vec![5, 20, 21, 15]);
    let ret: Vec<usize> = line.return_route.iter().map(|s| s.edge_index).collect();
    assert_eq!(ret, vec![15, 21, 20, 5]);

    // Check duration is split in half
    assert_eq!(line.forward_route[1].duration, Some(150 * NANOS_PER_SECOND));
    assert_eq!(line.forward_route[2].duration, Some(150 * NANOS_PER_SECOND));
    assert_eq!(line.forward_route[1].destination_platform, 1);
    assert_eq!(line.forward_route[2].origin_platform, 0);
    assert_eq!(line.forward_route[2].wait_time, 0);
}

#[test]
fn passing_station_segments() {
    let mut seg = create_test_segment(1);
    assert!(!seg.is_valid_for_passing_station());
    seg.duration = None;
    assert!(!seg.is_valid_for_passing_station());
    seg.wait_time = 0;
    assert!(seg.is_valid_for_passing_station());
}

#[test]
fn bypass_needs_both_durations_and_a_following_segment() {
    let mut a = create_test_segment(1);
    a.duration = None;
    let b = create_test_segment(2);
    let out = update_single_route(&[a, b], &[1, 2], &[((1, 2), 7)]);
    assert_eq!(out.len(), 1);
    assert_eq!(out[0].edge_index, 7);
    assert_eq!(out[0].duration, None);
    assert_eq!(out[0].track_index, 0);
    // A removed last segment has nothing to merge with.
    let out = update_single_route(&[create_test_segment(3), create_test_segment(1)], &[1], &[]);
    assert_eq!(out.len(), 1);
    assert_eq!(out[0].edge_index, 3);
}

#[test]
fn odd_durations_split_rounding_down() {
    let mut seg = create_test_segment(4);
    seg.duration = Some(-3);
    let mut line = routes(vec![seg], vec![]);
    line.replace_split_edge(4, 8, 9, 0, 0, 0, 0, 0);
    assert_eq!(line.forward_route[0].duration, Some(-2));
    assert_eq!(line.forward_route[1].duration, Some(-2));
}

#[test]
fn sync_rebuilds_return_route() {
    let seg = |e: usize, o: usize, d: usize, w: i128| RouteSegment {
        edge_index: e,
        track_index: 0,
        origin_platform: o,
        destination_platform: d,
        duration: Some(60),
        wait_time: w,
    };
    let mut line = routes(vec![seg(1, 0, 1, 10), seg(2, 1, 2, 20), seg(3, 2, 3, 30)], vec![seg(2, 7, 8, 99)]);
    line.first_stop_wait_time = 5;
    line.apply_route_sync_if_enabled();
    let r = &line.return_route;
    assert_eq!(r.len(), 3);
    assert_eq!((r[0].edge_index, r[0].origin_platform, r[0].destination_platform, r[0].wait_time), (3, 3, 2, 20));
    assert_eq!((r[1].edge_index, r[1].origin_platform, r[1].destination_platform, r[1].wait_time), (2, 7, 8, 99));
    assert_eq!((r[2].edge_index, r[2].origin_platform, r[2].destination_platform, r[2].wait_time), (1, 1, 0, 5));
    assert!(r.iter().all(|s| s.duration.is_none()));

    let mut unsynced = routes(vec![seg(1, 0, 1, 10)], vec![]);
    unsynced.sync_routes = false;
    unsynced.apply_route_sync_if_enabled();
    assert!(unsynced.return_route.is_empty());
}

#[test]
fn return_display_durations_mirror_forward_spans() {
    let seg = |e: usize, d: Option<i128>| RouteSegment {
        edge_index: e,
        track_index: 0,
        origin_platform: 0,
        destination_platform: 0,
        duration: d,
        wait_time: 0,
    };
    let line = routes(
        vec![seg(1, Some(100)), seg(2, None), seg(3, Some(300)), seg(4, None)],
        vec![seg(4, Some(1)), seg(3, Some(2)), seg(2, Some(3)), seg(1, Some(4))],
    );
    // The stretch 1-2 (100) begins on return segment 4 - 2 = 2; 3-4 (300) on segment 0.
    assert_eq!(line.get_return_display_durations(), vec![Some(300), None, Some(100), None]);
    let mut unsynced = line;
    unsynced.sync_routes = false;
    assert_eq!(unsynced.get_return_display_durations(), vec![Some(1), Some(2), Some(3), Some(4)]);
}

#[test]
fn duplicate_names() {
    assert_eq!(generate_duplicate_name("Express"), "Express (1)");
    assert_eq!(generate_duplicate_name("Express (1)"), "Express (2)");
    assert_eq!(generate_duplicate_name("Express (9) (41)"), "Express (9) (42)");
    assert_eq!(generate_duplicate_name("A (x)"), "A (x) (1)");
    assert_eq!(generate_duplicate_name("A (-5)"), "A (-4)");
    assert_eq!(generate_duplicate_name("(3)"), "(3) (1)");
    assert_eq!(generate_duplicate_name(" (3)"), " (4)");
}
