use nimby_graph::junction::{Junction, RoutingRule};
use nimby_graph::line::RouteDirection;
use nimby_graph::route::RouteSegment;
use nimby_graph::routing::{find_junction_by_connection, GraphEdge, RouteGraph};
use nimby_graph::track::{Track, TrackDirection, TrackHandedness};
use nimby_graph::jtraingraph_network::{add_or_get_station, StationTable};

const MIN_NS: i128 = 60_000_000_000;
const SEC_NS: i128 = 1_000_000_000;

fn graph() -> RouteGraph {
    RouteGraph { node_count: 0, edges: vec![], junctions: vec![] }
}

fn add_station(g: &mut RouteGraph) -> usize {
    g.junctions.push(None);
    g.node_count += 1;
    g.node_count - 1
}

fn add_junction(g: &mut RouteGraph, name: &str) -> usize {
    g.junctions.push(Some(Junction { name: Some(name.to_string()), routing_rules: vec![] }));
    g.node_count += 1;
    g.node_count - 1
}

fn add_track(g: &mut RouteGraph, source: usize, target: usize) -> usize {
    g.edges.push(GraphEdge {
        source,
        target,
        tracks: vec![Track { direction: TrackDirection::Bidirectional }],
        default_platform_source: None,
        default_platform_target: None,
    });
    g.edges.len() - 1
}

fn junction(g: &mut RouteGraph, j: usize) -> &mut Junction {
    g.junctions[j].as_mut().expect("a junction")
}

fn seg(edge_index: usize) -> RouteSegment {
    RouteSegment {
        edge_index,
        track_index: 0,
        origin_platform: 0,
        destination_platform: 0,
        duration: Some(5 * MIN_NS),
        wait_time: 30 * SEC_NS,
    }
}

fn line_abc() -> (RouteGraph, usize, usize, usize, usize, usize) {
    let mut g = graph();
    let a = add_station(&mut g);
    let b = add_station(&mut g);
    let c = add_station(&mut g);
    let e1 = add_track(&mut g, a, b);
    let e2 = add_track(&mut g, b, c);
    (g, a, b, c, e1, e2)
}

#[test]
fn test_get_route_endpoints_forward() {
    let (g, a, _, c, e1, e2) = line_abc();
    assert_eq!(g.get_route_endpoints(&[seg(e1), seg(e2)], RouteDirection::Forward), (Some(a), Some(c)));
}

#[test]
fn test_get_route_endpoints_return() {
    let (g, a, _, c, e1, e2) = line_abc();
    assert_eq!(g.get_route_endpoints(&[seg(e2), seg(e1)], RouteDirection::Return), (Some(c), Some(a)));
}

#[test]
fn test_get_route_endpoints_empty() {
    let g = graph();
    assert_eq!(g.get_route_endpoints(&[], RouteDirection::Forward), (None, None));
}

#[test]
fn test_get_stations_from_route_forward() {
    let (g, a, b, c, e1, e2) = line_abc();
    assert_eq!(g.get_stations_from_route(&[seg(e1), seg(e2)], RouteDirection::Forward), vec![a, b, c]);
}

#[test]
fn test_get_stations_from_route_return() {
    let (g, a, b, c, e1, e2) = line_abc();
    assert_eq!(g.get_stations_from_route(&[seg(e2), seg(e1)], RouteDirection::Return), vec![c, b, a]);
}

#[test]
fn test_get_available_start_stations() {
    let (g, a, b, c, _, e2) = line_abc();
    let available = g.get_available_start_stations(&[seg(e2)], RouteDirection::Forward, &[a, b, c]);
    assert_eq!(available, vec![a, c]);
}

#[test]
fn test_get_available_end_stations() {
    let (g, a, b, c, e1, _) = line_abc();
    let available = g.get_available_end_stations(&[seg(e1)], RouteDirection::Forward, &[a, b, c]);
    assert_eq!(available, vec![a, c]);
}

#[test]
fn test_get_available_stations_empty_route() {
    let mut g = graph();
    let a = add_station(&mut g);
    assert!(g.get_available_start_stations(&[], RouteDirection::Forward, &[a]).is_empty());
    assert!(g.get_available_end_stations(&[], RouteDirection::Forward, &[a]).is_empty());
}

#[test]
fn test_find_path_between_nodes_direct() {
    let mut g = graph();
    let a = add_station(&mut g);
    let b = add_station(&mut g);
    let e1 = add_track(&mut g, a, b);
    assert_eq!(g.find_path_between_nodes(a, b), Some(vec![e1]));
}

#[test]
fn test_find_path_between_nodes_indirect() {
    let (g, a, _, c, e1, e2) = line_abc();
    assert_eq!(g.find_path_between_nodes(a, c), Some(vec![e1, e2]));
}

#[test]
fn test_find_path_between_nodes_no_path() {
    let mut g = graph();
    let a = add_station(&mut g);
    let b = add_station(&mut g);
    let c = add_station(&mut g);
    add_track(&mut g, a, b);
    assert_eq!(g.find_path_between_nodes(a, c), None);
}

#[test]
fn test_find_path_between_nodes_through_junction() {
    let mut g = graph();
    let a = add_station(&mut g);
    let b = add_station(&mut g);
    let j = add_junction(&mut g, "J");
    let e1 = add_track(&mut g, a, j);
    let e2 = add_track(&mut g, j, b);
    assert_eq!(g.find_path_between_nodes(a, b), Some(vec![e1, e2]));
}

#[test]
fn test_get_stations_from_route_with_junction() {
    let mut g = graph();
    let a = add_station(&mut g);
    let b = add_station(&mut g);
    let j = add_junction(&mut g, "Junction J");
    let e1 = add_track(&mut g, a, j);
    let e2 = add_track(&mut g, j, b);
    assert_eq!(g.get_stations_from_route(&[seg(e1), seg(e2)], RouteDirection::Forward), vec![a, j, b]);
}

#[test]
fn test_pathfinding_creates_complete_route() {
    let mut g = graph();
    let a = add_station(&mut g);
    let b = add_station(&mut g);
    let j = add_junction(&mut g, "Junction J");
    add_track(&mut g, a, j);
    add_track(&mut g, j, b);
    let path = g.find_path_between_nodes(a, b).expect("a path");
    let route: Vec<RouteSegment> = path.iter().map(|&e| seg(e)).collect();
    assert_eq!(route.len(), 2);
    assert_eq!(g.get_stations_from_route(&route, RouteDirection::Forward), vec![a, j, b]);
}

#[test]
fn test_find_path_respects_disabled_junction_routing() {
    let mut g = graph();
    let a = add_station(&mut g);
    let b = add_station(&mut g);
    let c = add_station(&mut g);
    let j = add_junction(&mut g, "Junction J");
    let e1 = add_track(&mut g, a, j);
    let e2 = add_track(&mut g, j, b);
    let e3 = add_track(&mut g, j, c);
    assert!(g.find_path_between_nodes(a, b).is_some());
    junction(&mut g, j).routing_rules.push(RoutingRule { from_edge: e1, to_edge: e2, allowed: false });
    junction(&mut g, j).routing_rules.push(RoutingRule { from_edge: e3, to_edge: e2, allowed: false });
    assert_eq!(g.find_path_between_nodes(a, b), None);
    assert_eq!(g.find_path_between_nodes(a, c), Some(vec![e1, e3]));
}

#[test]
fn test_find_path_respects_junction_routing_with_alternate_route() {
    let mut g = graph();
    let a = add_station(&mut g);
    let b = add_station(&mut g);
    let c = add_station(&mut g);
    let j = add_junction(&mut g, "Junction J");
    let e1 = add_track(&mut g, a, j);
    let e2 = add_track(&mut g, j, b);
    let e3 = add_track(&mut g, a, c);
    let e4 = add_track(&mut g, c, b);
    junction(&mut g, j).routing_rules.push(RoutingRule { from_edge: e1, to_edge: e2, allowed: false });
    assert_eq!(g.find_path_between_nodes(a, b), Some(vec![e3, e4]));
}

#[test]
fn test_find_path_through_junction_twice() {
    let mut g = graph();
    let a = add_station(&mut g);
    let b = add_station(&mut g);
    let c = add_station(&mut g);
    let j = add_junction(&mut g, "Junction J");
    let e1 = add_track(&mut g, a, j);
    let e2 = add_track(&mut g, j, b);
    let e3 = add_track(&mut g, j, c);
    junction(&mut g, j).routing_rules.push(RoutingRule { from_edge: e1, to_edge: e3, allowed: false });
    assert_eq!(g.find_path_between_nodes(a, c), Some(vec![e1, e2, e2, e3]));
}

#[test]
fn test_find_path_one_way_track() {
    let mut g = graph();
    let a = add_station(&mut g);
    let b = add_station(&mut g);
    g.edges.push(GraphEdge {
        source: a,
        target: b,
        tracks: vec![Track { direction: TrackDirection::Forward }],
        default_platform_source: None,
        default_platform_target: None,
    });
    assert_eq!(g.find_path_between_nodes(a, b), Some(vec![0]));
    assert_eq!(g.find_path_between_nodes(b, a), None);
    assert_eq!(g.find_path_between_nodes(a, a), None);
}

#[test]
fn test_find_multi_point_path() {
    let (g, a, b, c, e1, e2) = line_abc();
    assert_eq!(g.find_multi_point_path(&[a, b, c]), Some(vec![e1, e2]));
    assert_eq!(g.find_multi_point_path(&[c, a]), Some(vec![e2, e1]));
    assert_eq!(g.find_multi_point_path(&[a]), None);
    assert_eq!(g.find_multi_point_path(&[a, a]), None);
}

fn junction_net(name: &str) -> (RouteGraph, usize, usize, usize, usize) {
    let mut g = graph();
    let a = add_station(&mut g);
    let j = add_junction(&mut g, name);
    let b = add_station(&mut g);
    let c = add_station(&mut g);
    let e1 = add_track(&mut g, a, j);
    let e2 = add_track(&mut g, j, b);
    let e3 = add_track(&mut g, j, c);
    (g, j, e1, e2, e3)
}

#[test]
fn test_validate_route_allowed() {
    let (g, _, e1, e2, _) = junction_net("Test Junction");
    assert!(g.validate_route_through_junctions(&[seg(e1), seg(e2)]).is_ok());
}

#[test]
fn test_validate_route_forbidden() {
    let (mut g, j, e1, e2, _) = junction_net("Test Junction");
    junction(&mut g, j).set_routing_rule(e1, e2, false);
    let result = g.validate_route_through_junctions(&[seg(e1), seg(e2)]);
    assert_eq!(result, Err("Routing from edge 0 to edge 1 is not allowed at Test Junction".to_string()));
}

#[test]
fn test_validate_route_asymmetric() {
    let mut g = graph();
    let a = add_station(&mut g);
    let j = add_junction(&mut g, "Test Junction");
    let b = add_station(&mut g);
    let e1 = add_track(&mut g, a, j);
    let e2 = add_track(&mut g, j, b);
    let e1_rev = add_track(&mut g, j, a);
    let e2_rev = add_track(&mut g, b, j);
    junction(&mut g, j).set_routing_rule(e2_rev, e1_rev, false);
    assert!(g.validate_route_through_junctions(&[seg(e1), seg(e2)]).is_ok());
    assert!(g.validate_route_through_junctions(&[seg(e2_rev), seg(e1_rev)]).is_err());
}

#[test]
fn test_validate_junction_valid() {
    let (g, j, _, _, _) = junction_net("Test Junction");
    assert!(g.validate_junction(j).is_ok());
}

#[test]
fn test_validate_junction_insufficient_connections() {
    let mut g = graph();
    let a = add_station(&mut g);
    let b = add_station(&mut g);
    let j = add_junction(&mut g, "Insufficient Junction");
    add_track(&mut g, a, j);
    add_track(&mut g, j, b);
    assert_eq!(
        g.validate_junction(j),
        Err("Insufficient Junction has only 2 connection(s), minimum is 3".to_string())
    );
}

#[test]
fn test_validate_junction_not_a_junction() {
    let mut g = graph();
    let s = add_station(&mut g);
    assert_eq!(g.validate_junction(s), Err("Node is not a junction".to_string()));
    assert_eq!(g.validate_junction(42), Err("Node is not a junction".to_string()));
}

#[test]
fn test_validate_junction_dead_end() {
    let (mut g, j, e1, e2, e3) = junction_net("Dead End Junction");
    junction(&mut g, j).set_routing_rule(e1, e2, false);
    junction(&mut g, j).set_routing_rule(e1, e3, false);
    assert_eq!(
        g.validate_junction(j),
        Err("Dead End Junction: edge 0 has no allowed outgoing routes (creates a dead end)".to_string())
    );
}

#[test]
fn test_validate_junction_invalid_edge_reference() {
    let (mut g, j, _, _, _) = junction_net("Invalid Junction");
    junction(&mut g, j).set_routing_rule(999, 1000, false);
    assert_eq!(
        g.validate_junction(j),
        Err("Routing rule references non-existent from_edge: 999".to_string())
    );
}

#[test]
fn test_validate_junction_unnamed_label() {
    let mut g = graph();
    let a = add_station(&mut g);
    g.junctions.push(Some(Junction { name: None, routing_rules: vec![] }));
    g.node_count += 1;
    let j = g.node_count - 1;
    add_track(&mut g, a, j);
    assert_eq!(
        g.validate_junction(j),
        Err("Junction at NodeIndex(1) has only 1 connection(s), minimum is 3".to_string())
    );
}

#[test]
fn test_get_all_nodes_ordered_empty_graph() {
    assert!(graph().get_all_nodes_ordered().is_empty());
}

#[test]
fn test_get_all_nodes_ordered_single_node() {
    let mut g = graph();
    let a = add_station(&mut g);
    assert_eq!(g.get_all_nodes_ordered(), vec![a]);
}

#[test]
fn test_get_all_nodes_ordered_connected_graph() {
    let (g, a, b, c, _, _) = line_abc();
    assert_eq!(g.get_all_nodes_ordered(), vec![a, b, c]);
}

#[test]
fn test_get_all_nodes_ordered_disconnected_components() {
    let mut g = graph();
    let s1 = add_station(&mut g);
    let s2 = add_station(&mut g);
    let s3 = add_station(&mut g);
    let s4 = add_station(&mut g);
    add_track(&mut g, s1, s2);
    add_track(&mut g, s3, s4);
    assert_eq!(g.get_all_nodes_ordered(), vec![s1, s2, s3, s4]);
}

#[test]
fn test_get_all_nodes_ordered_mixed_stations_and_junctions() {
    let mut g = graph();
    let a = add_station(&mut g);
    let j = add_junction(&mut g, "Junction");
    let b = add_station(&mut g);
    add_track(&mut g, a, j);
    add_track(&mut g, j, b);
    let nodes = g.get_all_nodes_ordered();
    assert_eq!(nodes, vec![a, j, b]);
    assert_eq!(nodes.iter().filter(|&&n| g.junctions[n].is_none()).count(), 2);
    assert_eq!(nodes.iter().filter(|&&n| g.junctions[n].is_some()).count(), 1);
}

#[test]
fn test_get_all_nodes_ordered_follows_edges_forward_only() {
    let mut g = graph();
    let a = add_station(&mut g);
    let b = add_station(&mut g);
    let c = add_station(&mut g);
    add_track(&mut g, c, a);
    add_track(&mut g, a, b);
    assert_eq!(g.get_all_nodes_ordered(), vec![a, b, c]);
}

#[test]
fn test_get_all_stations_ordered() {
    let (g, a, b, c, _, _) = line_abc();
    assert_eq!(g.get_all_stations_ordered(), vec![a, b, c]);
}

#[test]
fn test_get_all_stations_ordered_empty_graph() {
    assert!(graph().get_all_stations_ordered().is_empty());
}

#[test]
fn test_get_all_stations_ordered_skips_junctions() {
    let mut g = graph();
    let a = add_station(&mut g);
    let j = add_junction(&mut g, "J");
    let b = add_station(&mut g);
    add_track(&mut g, a, j);
    add_track(&mut g, j, b);
    assert_eq!(g.get_all_stations_ordered(), vec![a, b]);
}

#[test]
fn test_toggle_segment_double_track() {
    let mut g = graph();
    let a = add_station(&mut g);
    let b = add_station(&mut g);
    let edge = add_track(&mut g, a, b);
    assert_eq!(g.edges[edge].tracks.len(), 1);
    assert_eq!(g.toggle_segment_double_track(Some(a), Some(b)), vec![(edge, 2)]);
    assert_eq!(g.edges[edge].tracks.len(), 2);
    assert_eq!(g.toggle_segment_double_track(Some(a), Some(b)), vec![(edge, 1)]);
    assert_eq!(g.edges[edge].tracks.len(), 1);
}

#[test]
fn test_toggle_nonexistent_stations() {
    let mut g = graph();
    let a = add_station(&mut g);
    assert!(g.toggle_segment_double_track(Some(a), None).is_empty());
    assert!(g.toggle_segment_double_track(None, None).is_empty());
}

#[test]
fn test_toggle_bidirectional_edges() {
    let mut g = graph();
    let a = add_station(&mut g);
    let b = add_station(&mut g);
    let c = add_station(&mut g);
    let e1 = add_track(&mut g, a, b);
    let e2 = add_track(&mut g, b, a);
    let other = add_track(&mut g, b, c);
    assert_eq!(g.toggle_segment_double_track(Some(a), Some(b)), vec![(e1, 2), (e2, 2)]);
    assert_eq!(g.edges[e1].tracks.len(), 2);
    assert_eq!(g.edges[e2].tracks.len(), 2);
    assert_eq!(g.edges[other].tracks.len(), 1);
}

#[test]
fn test_select_track_for_direction() {
    let mut g = graph();
    let a = add_station(&mut g);
    let b = add_station(&mut g);
    g.edges.push(GraphEdge {
        source: a,
        target: b,
        tracks: vec![Track { direction: TrackDirection::Forward }, Track { direction: TrackDirection::Backward }],
        default_platform_source: None,
        default_platform_target: None,
    });
    assert_eq!(g.select_track_for_direction(0, false), 0);
    assert_eq!(g.select_track_for_direction(0, true), 1);
    assert_eq!(g.select_track_for_direction(7, true), 0);
}

#[test]
fn test_get_default_platform_for_arrival() {
    let mut g = graph();
    let a = add_station(&mut g);
    let b = add_station(&mut g);
    let e = add_track(&mut g, a, b);
    assert_eq!(g.get_default_platform_for_arrival(e, true, 4, TrackHandedness::RightHand), 3);
    assert_eq!(g.get_default_platform_for_arrival(e, false, 4, TrackHandedness::RightHand), 0);
    assert_eq!(g.get_default_platform_for_arrival(e, true, 4, TrackHandedness::LeftHand), 0);
    assert_eq!(g.get_default_platform_for_arrival(e, false, 4, TrackHandedness::LeftHand), 3);
    assert_eq!(g.get_default_platform_for_arrival(e, true, 0, TrackHandedness::RightHand), 0);
    g.edges[e].default_platform_target = Some(2);
    assert_eq!(g.get_default_platform_for_arrival(e, true, 4, TrackHandedness::RightHand), 2);
    assert_eq!(g.get_default_platform_for_arrival(e, false, 4, TrackHandedness::RightHand), 0);
}

#[test]
fn test_generate_return_route() {
    let mut g = graph();
    let a = add_station(&mut g);
    let b = add_station(&mut g);
    let c = add_station(&mut g);
    g.edges.push(GraphEdge {
        source: a,
        target: b,
        tracks: vec![Track { direction: TrackDirection::Forward }, Track { direction: TrackDirection::Backward }],
        default_platform_source: None,
        default_platform_target: None,
    });
    let e2 = add_track(&mut g, b, c);
    let forward = vec![
        RouteSegment { edge_index: 0, track_index: 0, origin_platform: 1, destination_platform: 2, duration: Some(5 * MIN_NS), wait_time: 30 * SEC_NS },
        RouteSegment { edge_index: e2, track_index: 0, origin_platform: 3, destination_platform: 4, duration: Some(7 * MIN_NS), wait_time: 60 * SEC_NS },
    ];
    let ret = g.generate_return_route(&forward, 10 * SEC_NS);
    assert_eq!(
        ret,
        vec![
            RouteSegment { edge_index: e2, track_index: 0, origin_platform: 4, destination_platform: 3, duration: Some(7 * MIN_NS), wait_time: 30 * SEC_NS },
            RouteSegment { edge_index: 0, track_index: 1, origin_platform: 2, destination_platform: 1, duration: Some(5 * MIN_NS), wait_time: 10 * SEC_NS },
        ]
    );
}

#[test]
fn test_create_pathfound_segments() {
    let mut g = graph();
    let a = add_station(&mut g);
    let j = add_junction(&mut g, "J");
    let b = add_station(&mut g);
    let e1 = add_track(&mut g, a, j);
    let e2 = add_track(&mut g, j, b);
    let counts = vec![3, 1, 2];
    let segs = g.create_pathfound_segments(&[e1, e2], &counts, 9 * MIN_NS, 45 * SEC_NS, TrackHandedness::RightHand);
    assert_eq!(
        segs,
        vec![
            RouteSegment { edge_index: e1, track_index: 0, origin_platform: 0, destination_platform: 0, duration: Some(9 * MIN_NS), wait_time: 0 },
            RouteSegment { edge_index: e2, track_index: 0, origin_platform: 0, destination_platform: 1, duration: None, wait_time: 45 * SEC_NS },
        ]
    );
}

#[test]
fn test_find_junction_by_connection() {
    let mut g = graph();
    let a = add_station(&mut g);
    let j1 = add_junction(&mut g, "J1");
    let j2 = add_junction(&mut g, "J1");
    let b = add_station(&mut g);
    add_track(&mut g, j1, a);
    add_track(&mut g, b, j2);
    let names = vec![Some("A".to_string()), None, None, Some("B".to_string())];
    assert_eq!(find_junction_by_connection(&g, &names, "J1", "A"), Some(j1));
    assert_eq!(find_junction_by_connection(&g, &names, "J1", "B"), Some(j2));
    assert_eq!(find_junction_by_connection(&g, &names, "J2", "A"), None);
    assert_eq!(find_junction_by_connection(&g, &names, "J1", "C"), None);
    // A station is never taken for the junction itself.
    assert_eq!(find_junction_by_connection(&g, &names, "A", "A"), None);
}

#[test]
fn test_find_path_prefers_fewest_segments() {
    let mut g = graph();
    let a = add_station(&mut g);
    let b = add_station(&mut g);
    let c = add_station(&mut g);
    let d = add_station(&mut g);
    add_track(&mut g, a, b);
    add_track(&mut g, b, c);
    add_track(&mut g, c, d);
    let direct = add_track(&mut g, d, a);
    assert_eq!(g.find_path_between_nodes(a, d), Some(vec![direct]));
    assert_eq!(g.find_path_between_nodes(a, c).map(|p| p.len()), Some(2));
}

#[test]
fn test_get_station_edges() {
    let mut graph = graph();
    let idx1 = add_station(&mut graph);
    let idx2 = add_station(&mut graph);
    let idx3 = add_station(&mut graph);

    add_track(&mut graph, idx1, idx2);
    add_track(&mut graph, idx2, idx3);

    let edges = graph.get_station_edges(idx2);
    assert_eq!(edges.len(), 2); // Station B has 2 connected edges

    let edges = graph.get_station_edges(idx1);
    assert_eq!(edges.len(), 1); // Station A has 1 connected edge
}

#[test]
fn test_find_connections_through_station() {
    let mut graph = graph();
    let idx1 = add_station(&mut graph);
    let idx2 = add_station(&mut graph);
    let idx3 = add_station(&mut graph);

    add_track(&mut graph, idx1, idx2);
    add_track(&mut graph, idx2, idx3);

    let connections = graph.find_connections_through_station(idx2);
    assert_eq!(connections.len(), 1);
    assert_eq!(connections[0].0, idx1); // from A
    assert_eq!(connections[0].1, idx3); // to C
}

#[test]
fn test_find_connections_through_station_needs_one_in_one_out() {
    let mut graph = graph();
    let a = add_station(&mut graph);
    let b = add_station(&mut graph);
    let c = add_station(&mut graph);
    add_track(&mut graph, a, b);
    add_track(&mut graph, c, b);
    // Two segments arrive at B and none leaves it: no bypass.
    assert!(graph.find_connections_through_station(b).is_empty());
    assert!(graph.find_connections_through_station(a).is_empty());
    // The bypass takes the tracks of the busier segment.
    let d = add_station(&mut graph);
    let e = graph.edges.len();
    add_track(&mut graph, d, a);
    graph.edges[e].tracks.push(Track { direction: TrackDirection::Forward });
    let through_a = graph.find_connections_through_station(a);
    assert_eq!(through_a.len(), 1);
    assert_eq!((through_a[0].0, through_a[0].1), (d, b));
    assert_eq!(through_a[0].2.len(), 2);
}

#[test]
fn test_add_junction() {
    let mut graph = graph();
    let junction = Junction { name: Some("Test Junction".to_string()), routing_rules: vec![] };

    let idx = graph.add_junction(junction);
    assert_eq!(graph.node_count, 1);
    assert!(graph.is_junction(idx));
}

#[test]
fn test_get_junction() {
    let mut graph = graph();
    let junction = Junction { name: Some("Test Junction".to_string()), routing_rules: vec![] };

    let idx = graph.add_junction(junction);
    let retrieved = graph.get_junction(idx);

    assert!(retrieved.is_some());
    assert_eq!(retrieved.expect("Junction should exist").name, Some("Test Junction".to_string()));
}

#[test]
fn test_graph_track_accessors() {
    let mut graph = graph();
    let a = add_station(&mut graph);
    let b = add_station(&mut graph);
    let e = graph.add_track(a, b, vec![Track { direction: TrackDirection::Forward }, Track { direction: TrackDirection::Backward }]);
    assert_eq!(graph.get_track(e).map(|s| s.tracks.len()), Some(2));
    assert_eq!(graph.get_track_endpoints(e), Some((a, b)));
    assert!(graph.get_track(e + 1).is_none());
    assert_eq!(graph.get_track_endpoints(e + 1), None);
    assert!(!graph.is_junction(a));
    assert!(graph.get_junction(a).is_none());
    assert!(!graph.is_junction(99));
}

fn empty_table() -> StationTable {
    StationTable { names: vec![], platforms: vec![] }
}

#[test]
fn test_add_track() {
    let mut graph = graph();
    let mut table = empty_table();
    let idx1 = add_or_get_station(&mut graph, &mut table, "Station A");
    let idx2 = add_or_get_station(&mut graph, &mut table, "Station B");

    let tracks = vec![Track { direction: TrackDirection::Bidirectional }];
    let edge = graph.add_track(idx1, idx2, tracks);

    assert_eq!(graph.edges.len(), 1);
    assert!(graph.get_track(edge).is_some());
    assert_eq!(graph.get_track_endpoints(edge), Some((idx1, idx2)));
}

#[test]
fn test_get_track() {
    let mut graph = graph();
    let mut table = empty_table();
    let idx1 = add_or_get_station(&mut graph, &mut table, "Station A");
    let idx2 = add_or_get_station(&mut graph, &mut table, "Station B");

    let tracks = vec![Track { direction: TrackDirection::Bidirectional }];
    let edge = graph.add_track(idx1, idx2, tracks);

    let track_segment = graph.get_track(edge).expect("track should exist");
    assert_eq!(track_segment.tracks.len(), 1);
}

#[test]
fn test_get_track_endpoints() {
    let mut graph = graph();
    let mut table = empty_table();
    let idx1 = add_or_get_station(&mut graph, &mut table, "Station A");
    let idx2 = add_or_get_station(&mut graph, &mut table, "Station B");

    let tracks = vec![Track { direction: TrackDirection::Bidirectional }];
    let edge = graph.add_track(idx1, idx2, tracks);

    let endpoints = graph.get_track_endpoints(edge);
    assert_eq!(endpoints, Some((idx1, idx2)));
}

#[test]
fn test_is_junction() {
    let mut graph = graph();
    let mut table = empty_table();

    let junction = Junction { name: Some("Test Junction".to_string()), routing_rules: vec![] };
    let j_idx = graph.add_junction(junction);
    table.names.push(None);
    table.platforms.push(vec![]);

    let s_idx = add_or_get_station(&mut graph, &mut table, "Station A");

    assert!(graph.is_junction(j_idx));
    assert!(!graph.is_junction(s_idx));
}

#[test]
fn test_add_or_get_station_returns_existing_node() {
    let mut graph = graph();
    let mut table = empty_table();
    let a = add_or_get_station(&mut graph, &mut table, "A");
    let b = add_or_get_station(&mut graph, &mut table, "B");
    assert_eq!(add_or_get_station(&mut graph, &mut table, "A"), a);
    assert_ne!(a, b);
    assert_eq!(graph.node_count, 2);
    assert_eq!(table.platforms[a].iter().map(|p| p.name.clone()).collect::<Vec<_>>(), vec!["1", "2"]);
}
