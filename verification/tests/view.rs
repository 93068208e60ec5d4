use nimby_graph::routing::{GraphEdge, RouteGraph};
use nimby_graph::track::{Track, TrackDirection};
use nimby_graph::view::GraphView;

fn graph() -> RouteGraph {
    RouteGraph { node_count: 0, edges: vec![], junctions: vec![] }
}

fn add_station(g: &mut RouteGraph) -> usize {
    g.junctions.push(None);
    g.node_count += 1;
    g.node_count - 1
}

fn add_track(g: &mut RouteGraph, source: usize, target: usize) -> usize {
    g.edges.push(GraphEdge {
        source,
        target,
        tracks: vec![Track { direction: TrackDirection::Bidirectional }],
        default_platform_source: None,
        default_platform_target: None,
    });
    g.edges.len() - 1
}

#[test]
fn test_view_structure() {
    let view = GraphView { name: "Test".to_string(), station_range: Some((0, 2)), edge_path: None };

    assert_eq!(view.name, "Test");
    assert!(view.station_range.is_some());
}

#[test]
fn test_default_main_line_empty_graph() {
    let graph = graph();
    let view = GraphView::default_main_line(&graph);

    assert_eq!(view.name, "Main Line");
    assert_eq!(view.station_range, None);
}

#[test]
fn test_default_main_line_with_stations() {
    let mut graph = graph();
    let s1 = add_station(&mut graph);
    let s2 = add_station(&mut graph);
    add_track(&mut graph, s1, s2);

    let view = GraphView::default_main_line(&graph);

    assert_eq!(view.name, "Main Line");
    assert!(view.station_range.is_some());
    let (from, to) = view.station_range.expect("station range should exist");
    assert!(from == s1 || from == s2);
    assert!(to == s1 || to == s2);
    assert_ne!(from, to);
}

#[test]
fn test_calculate_path_with_graph() {
    let mut graph = graph();
    let s1 = add_station(&mut graph);
    let s2 = add_station(&mut graph);
    let s3 = add_station(&mut graph);
    add_track(&mut graph, s1, s2);
    add_track(&mut graph, s2, s3);

    let view = GraphView { name: "Test".to_string(), station_range: Some((s1, s3)), edge_path: None };

    let path = view.calculate_path(&graph);
    assert!(path.is_some());
    let path = path.expect("path should be calculable");
    assert_eq!(path.len(), 3);
    assert_eq!(path[0], s1);
    assert_eq!(path[1], s2);
    assert_eq!(path[2], s3);
}

#[test]
fn test_calculate_path_no_station_range() {
    let graph = graph();
    let view = GraphView { name: "Test".to_string(), station_range: None, edge_path: None };

    let path = view.calculate_path(&graph);
    assert_eq!(path, None);
}

/// A - B - C with a branch B - D - E.
fn branched() -> (RouteGraph, Vec<usize>) {
    let mut g = graph();
    let n: Vec<usize> = (0..5).map(|_| add_station(&mut g)).collect();
    let e0 = add_track(&mut g, n[0], n[1]);
    let e1 = add_track(&mut g, n[1], n[2]);
    let e2 = add_track(&mut g, n[3], n[1]);
    let e3 = add_track(&mut g, n[3], n[4]);
    (g, vec![e0, e1, e2, e3])
}

#[test]
fn test_default_main_line_takes_longest_chain() {
    let (g, _) = branched();
    let view = GraphView::default_main_line(&g);
    let (from, to) = view.station_range.expect("a main line");
    // The longest chains run between A or C and E, through B and D.
    assert!((from == 4 && (to == 0 || to == 2)) || (to == 4 && (from == 0 || from == 2)));
    assert!(view.edge_path.is_none());
}

#[test]
fn test_from_edge_path() {
    let (g, e) = branched();
    // A -> B, then D - B run backwards to D, then D -> E.
    let view = GraphView::from_edge_path("Branch".to_string(), vec![e[0], e[2], e[3]], &g).expect("a view");
    assert_eq!(view.name, "Branch");
    assert_eq!(view.station_range, Some((0, 4)));
    assert_eq!(view.edge_path, Some(vec![e[0], e[2], e[3]]));
    assert_eq!(view.calculate_path(&g), Some(vec![0, 1, 3, 4]));
}

#[test]
fn test_from_edge_path_errors() {
    let (g, e) = branched();
    let empty = GraphView::from_edge_path("X".to_string(), vec![], &g);
    assert_eq!(empty.err(), Some("Edge path cannot be empty".to_string()));
    let missing = GraphView::from_edge_path("X".to_string(), vec![e[0], 17], &g);
    assert_eq!(missing.err(), Some("Edge 17 does not exist".to_string()));
    let gap = GraphView::from_edge_path("X".to_string(), vec![e[0], e[3]], &g);
    assert_eq!(gap.err(), Some("Edge path is not continuous".to_string()));
}

#[test]
fn test_from_station_range() {
    let (mut g, _) = branched();
    let lone = add_station(&mut g);
    let view = GraphView::from_station_range("Range".to_string(), 0, 4, &g).expect("a view");
    assert_eq!(view.station_range, Some((0, 4)));
    assert!(view.edge_path.is_none());
    assert_eq!(view.calculate_path(&g), Some(vec![0, 1, 3, 4]));
    let none = GraphView::from_station_range("Range".to_string(), 0, lone, &g);
    assert_eq!(none.err(), Some("No path exists between the selected stations".to_string()));
    assert!(GraphView::from_station_range("Range".to_string(), 2, 2, &g).is_err());
}

#[test]
fn test_visible_stations_and_display_order() {
    let (g, e) = branched();
    let all = GraphView { name: "All".to_string(), station_range: None, edge_path: None };
    let visible = all.visible_stations(&g);
    assert_eq!(visible.len(), 5);
    let drawn = all.get_nodes_for_display(&g);
    assert_eq!(drawn.len(), 5);
    assert_eq!(drawn[0], 0);

    let part = GraphView { name: "Part".to_string(), station_range: Some((2, 0)), edge_path: Some(vec![e[1], e[0]]) };
    let visible = part.visible_stations(&g);
    assert!(visible.contains(&0) && visible.contains(&1) && visible.contains(&2));
    assert_eq!(visible.len(), 3);
    assert_eq!(part.get_nodes_for_display(&g), vec![2, 1, 0]);
    let map = part.build_station_index_map(&g);
    assert_eq!(map.get(&2), Some(&0));
    assert_eq!(map.get(&1), Some(&1));
    assert_eq!(map.get(&0), Some(&2));
    assert_eq!(map.get(&3), None);
}

#[test]
fn test_set_name() {
    let mut view = GraphView { name: "Old".to_string(), station_range: Some((0, 1)), edge_path: None };
    view.set_name("New".to_string());
    assert_eq!(view.name, "New");
    assert_eq!(view.station_range, Some((0, 1)));
}
