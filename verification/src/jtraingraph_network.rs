//! The part of a jTrainGraph import that builds the network: a station node
//! for each timetable station (matched by name), the platforms the
//! timetable gives it, one segment between each pair of consecutive stations,
//! and what the network says about each hop of a line's route.

use vstd::prelude::*;
use crate::jtraingraph::{JTrainGraphTimetable, JTrainGraphStation, JTrainGraphPlatform, JTrainGraphTrainInfo, HopInfo, PlannedSegment, StopPattern, route_pairs, pattern_wf, planned_segments, first_missing_edge, create_route_segments, find_platform_index, platform_position, lemma_platform_position, lemma_platform_position_none};
use crate::routing::{RouteGraph, GraphEdge, graph_wf, default_arrival_platform};
use crate::track::{Track, TrackHandedness, track_direction_for, create_tracks_with_count};
use crate::text::{chars_of, str_eq, parse_unsigned, parse_unsigned_spec};

verus! {

/// What the network knows of its stations, by node: each station's name and
/// platforms (a junction has no name).
pub struct StationTable {
    pub names: Vec<Option<String>>,
    pub platforms: Vec<Vec<JTrainGraphPlatform>>,
}

/// The names of a list of platforms.
pub open spec fn platform_names(p: Seq<JTrainGraphPlatform>) -> Seq<Seq<char>> {
    p.map_values(|x: JTrainGraphPlatform| x.name@)
}

/// The names of the nodes, as sequences.
pub open spec fn node_names(t: StationTable) -> Seq<Option<Seq<char>>> {
    t.names@.map_values(|n: Option<String>| match n {
        Some(s) => Some(s@),
        None => None,
    })
}

/// The platform names of the nodes.
pub open spec fn node_platforms(t: StationTable) -> Seq<Seq<Seq<char>>> {
    t.platforms@.map_values(|p: Vec<JTrainGraphPlatform>| platform_names(p@))
}

/// The table has an entry for every node of the network.
pub open spec fn table_wf(g: RouteGraph, t: StationTable) -> bool {
    t.names@.len() == g.node_count && t.platforms@.len() == g.node_count
}

/// The first node from `i` on with the given name.
pub open spec fn first_named(names: Seq<Option<Seq<char>>>, name: Seq<char>, i: int) -> Option<int>
    decreases names.len() - i,
{
    if i < 0 || i >= names.len() {
        None
    } else if names[i] == Some(name) {
        Some(i)
    } else {
        first_named(names, name, i + 1)
    }
}

/// The platforms a new station gets: "1" and "2".
pub open spec fn default_platform_names() -> Seq<Seq<char>> {
    seq!["1"@, "2"@]
}

/// The network's stations after matching the first `i` timetable stations
/// (each a name and its platform names), starting from `names`/`plats`:
/// the names, the platforms, and the node of each station. A station is the
/// first node with its name, or a new node (with platforms "1" and "2");
/// platforms the timetable gives replace the node's.
pub open spec fn stations_after(
    names: Seq<Option<Seq<char>>>,
    plats: Seq<Seq<Seq<char>>>,
    sts: Seq<(Seq<char>, Seq<Seq<char>>)>,
    i: int,
) -> (Seq<Option<Seq<char>>>, Seq<Seq<Seq<char>>>, Seq<usize>)
    decreases i,
{
    if i <= 0 {
        (names, plats, Seq::empty())
    } else {
        let prev = stations_after(names, plats, sts, i - 1);
        let (name, pl) = sts[i - 1];
        match first_named(prev.0, name, 0) {
            Some(k) => (prev.0, if pl.len() > 0 { prev.1.update(k, pl) } else { prev.1 }, prev.2.push(k as usize)),
            None => (
                prev.0.push(Some(name)),
                prev.1.push(if pl.len() > 0 { pl } else { default_platform_names() }),
                prev.2.push(prev.0.len() as usize),
            ),
        }
    }
}

/// A timetable station as its name and platform names.
pub open spec fn station_view(s: JTrainGraphStation) -> (Seq<char>, Seq<Seq<char>>) {
    (s.name@, platform_names(s.platforms@))
}

/// The timetable's stations as names and platform names.
pub open spec fn timetable_stations(tt: JTrainGraphTimetable) -> Seq<(Seq<char>, Seq<Seq<char>>)> {
    tt.stations.stations@.map_values(|s: JTrainGraphStation| station_view(s))
}

proof fn lemma_first_named_bound(names: Seq<Option<Seq<char>>>, name: Seq<char>, i: int)
    requires
        0 <= i,
    ensures
        first_named(names, name, i) matches Some(k) ==> i <= k < names.len() && names[k] == Some(name),
        first_named(names, name, i) is None ==> forall|k: int| i <= k < names.len() ==> names[k] != Some(name),
    decreases names.len() - i,
{
    if i < names.len() && names[i] != Some(name) {
        lemma_first_named_bound(names, name, i + 1);
    }
}

proof fn lemma_stations_after_len(names: Seq<Option<Seq<char>>>, plats: Seq<Seq<Seq<char>>>, sts: Seq<(Seq<char>, Seq<Seq<char>>)>, i: int)
    requires
        0 <= i,
        names.len() == plats.len(),
    ensures
        stations_after(names, plats, sts, i).0.len() == stations_after(names, plats, sts, i).1.len(),
        stations_after(names, plats, sts, i).0.len() >= names.len(),
        stations_after(names, plats, sts, i).2.len() == i,
        forall|j: int| 0 <= j < i ==> (#[trigger] stations_after(names, plats, sts, i).2[j]) < stations_after(names, plats, sts, i).0.len(),
    decreases i,
{
    if i > 0 {
        lemma_stations_after_len(names, plats, sts, i - 1);
        let prev = stations_after(names, plats, sts, i - 1);
        lemma_first_named_bound(prev.0, sts[i - 1].0, 0);
    }
}

fn copy_platforms(p: &Vec<JTrainGraphPlatform>) -> (r: Vec<JTrainGraphPlatform>)
    ensures
        platform_names(r@) == platform_names(p@),
{
    let mut r: Vec<JTrainGraphPlatform> = Vec::new();
    let mut i: usize = 0;
    while i < p.len()
        invariant
            i <= p@.len(),
            platform_names(r@) == platform_names(p@).take(i as int),
        decreases p@.len() - i,
    {
        let name = p[i].name.clone();
        let ghost prev = r@;
        let item = JTrainGraphPlatform { name };
        r.push(item);
        proof {
            assert(r@ =~= prev.push(item));
            assert(platform_names(prev.push(item)) =~= platform_names(prev).push(p@[i as int].name@));
            assert(platform_names(r@) =~= platform_names(p@).take(i + 1));
        }
        i = i + 1;
    }
    proof {
        assert(platform_names(p@).take(p@.len() as int) =~= platform_names(p@));
    }
    r
}

fn default_station_platforms() -> (r: Vec<JTrainGraphPlatform>)
    ensures
        platform_names(r@) == default_platform_names(),
{
    let mut r: Vec<JTrainGraphPlatform> = Vec::new();
    r.push(JTrainGraphPlatform { name: String::from_str("1") });
    r.push(JTrainGraphPlatform { name: String::from_str("2") });
    proof {
        reveal_strlit("1");
        reveal_strlit("2");
        assert(platform_names(r@) =~= default_platform_names());
    }
    r
}

fn find_named(t: &StationTable, name: &str) -> (r: Option<usize>)
    ensures
        match first_named(node_names(*t), name@, 0) {
            Some(k) => r == Some(k as usize),
            None => r is None,
        },
{
    let mut i: usize = 0;
    while i < t.names.len()
        invariant
            i <= t.names@.len(),
            first_named(node_names(*t), name@, 0) == first_named(node_names(*t), name@, i as int),
        decreases t.names@.len() - i,
    {
        let hit = match &t.names[i] {
            Some(n) => str_eq(n.as_str(), name),
            None => false,
        };
        if hit {
            return Some(i);
        }
        i = i + 1;
    }
    None
}

/// Create or match a station node for each timetable station, in order (see
/// `stations_after`); returns each station's node.
pub fn create_jtraingraph_stations(timetable: &JTrainGraphTimetable, graph: &mut RouteGraph, stations: &mut StationTable) -> (r: Vec<usize>)
    requires
        graph_wf(*old(graph)),
        table_wf(*old(graph), *old(stations)),
        old(graph).node_count + timetable.stations.stations@.len() <= usize::MAX,
    ensures
        graph_wf(*final(graph)),
        table_wf(*final(graph), *final(stations)),
        final(graph).edges@ == old(graph).edges@,
        ({
            let after = stations_after(node_names(*old(stations)), node_platforms(*old(stations)), timetable_stations(*timetable), timetable.stations.stations@.len() as int);
            &&& node_names(*final(stations)) == after.0
            &&& node_platforms(*final(stations)) == after.1
            &&& r@ == after.2
        }),
        forall|n: int| 0 <= n < old(graph).node_count ==> #[trigger] final(graph).junctions@[n] == old(graph).junctions@[n],
        forall|n: int| old(graph).node_count <= n < final(graph).node_count ==> #[trigger] final(graph).junctions@[n] is None,
{
    let ghost names0 = node_names(*stations);
    let ghost plats0 = node_platforms(*stations);
    let ghost sts = timetable_stations(*timetable);
    let ghost g0 = *graph;
    let n = timetable.stations.stations.len();
    let mut nodes: Vec<usize> = Vec::new();
    let mut i: usize = 0;
    while i < n
        invariant
            n == timetable.stations.stations@.len(),
            sts == timetable_stations(*timetable),
            i <= n,
            graph_wf(*graph),
            table_wf(*graph, *stations),
            graph.node_count <= g0.node_count + i,
            g0.node_count + n <= usize::MAX,
            graph.edges@ == g0.edges@,
            graph.node_count >= g0.node_count,
            forall|k: int| 0 <= k < g0.node_count ==> #[trigger] graph.junctions@[k] == g0.junctions@[k],
            forall|k: int| g0.node_count <= k < graph.node_count ==> #[trigger] graph.junctions@[k] is None,
            node_names(*stations) == stations_after(names0, plats0, sts, i as int).0,
            node_platforms(*stations) == stations_after(names0, plats0, sts, i as int).1,
            nodes@ == stations_after(names0, plats0, sts, i as int).2,
        decreases n - i,
    {
        let st = &timetable.stations.stations[i];
        proof {
            assert(sts[i as int] == station_view(*st));
        }
        let ghost prev = stations_after(names0, plats0, sts, i as int);
        match find_named(stations, st.name.as_str()) {
            Some(k) => {
                proof {
                    lemma_first_named_bound(node_names(*stations), st.name@, 0);
                }
                if st.platforms.len() > 0 {
                    let pl = copy_platforms(&st.platforms);
                    let ghost before = *stations;
                    stations.platforms.set(k, pl);
                    proof {
                        assert(node_platforms(*stations) =~= node_platforms(before).update(k as int, platform_names(st.platforms@)));
                        assert(node_names(*stations) =~= node_names(before));
                    }
                }
                nodes.push(k);
            },
            None => {
                let idx = graph.node_count;
                let pl = if st.platforms.len() > 0 { copy_platforms(&st.platforms) } else { default_station_platforms() };
                let ghost before = *stations;
                let name = st.name.clone();
                stations.names.push(Some(name));
                stations.platforms.push(pl);
                graph.junctions.push(None);
                graph.node_count = graph.node_count + 1;
                proof {
                    assert(node_names(*stations) =~= node_names(before).push(Some(st.name@)));
                    assert(node_platforms(*stations) =~= node_platforms(before).push(
                        if platform_names(st.platforms@).len() > 0 { platform_names(st.platforms@) } else { default_platform_names() },
                    ));
                }
                nodes.push(idx);
            },
        }
        i = i + 1;
    }
    nodes
}

/// The number of tracks a station's `tracks` field gives the segment to the
/// next station: its value, or 1 when it is not a number.
pub open spec fn station_track_count(s: Seq<char>) -> int {
    match parse_unsigned_spec(s, usize::MAX as nat) {
        Some(v) => v as int,
        None => 1,
    }
}

/// The first `j` from `i` on (below `n - 1`) whose consecutive nodes are `key`.
pub open spec fn first_pair(nodes: Seq<usize>, key: (usize, usize), i: int) -> Option<int>
    decreases nodes.len() - i,
{
    if i < 0 || i + 1 >= nodes.len() {
        None
    } else if (nodes[i], nodes[i + 1]) == key {
        Some(i)
    } else {
        first_pair(nodes, key, i + 1)
    }
}

/// The edge recorded for `key`, if any.
pub open spec fn edge_for(map: Seq<((usize, usize), usize)>, key: (usize, usize)) -> Option<usize>
    decreases map.len(),
{
    if map.len() == 0 {
        None
    } else if map[0].0 == key {
        Some(map[0].1)
    } else {
        edge_for(map.drop_first(), key)
    }
}

/// Segment `e` is the one made for the pair of consecutive timetable stations
/// `j`, `j + 1`: from the first's node to the second's, with the first's
/// number of tracks (in the default layout) and the default platforms the
/// stations name for leaving the first and arriving at the second.
pub open spec fn edge_made_for(g: RouteGraph, e: int, tt: JTrainGraphTimetable, nodes: Seq<usize>, j: int) -> bool {
    let from = tt.stations.stations@[j];
    let to = tt.stations.stations@[j + 1];
    let ed = g.edges@[e];
    &&& ed.source == nodes[j]
    &&& ed.target == nodes[j + 1]
    &&& ed.tracks@.len() == station_track_count(from.tracks@)
    &&& forall|t: int| 0 <= t < ed.tracks@.len() ==> (#[trigger] ed.tracks@[t]).direction
        == track_direction_for(ed.tracks@.len() as int, t)
    &&& ed.default_platform_source == (match platform_position(from.platforms@, from.default_platform_away@, 0) {
        Some(p) => Some(p as usize),
        None => None,
    })
    &&& ed.default_platform_target == (match platform_position(to.platforms@, to.default_platform_in@, 0) {
        Some(p) => Some(p as usize),
        None => None,
    })
}

/// The map's entry names the segment made for the first pair of consecutive
/// stations with its nodes.
pub open spec fn entry_made(g: RouteGraph, tt: JTrainGraphTimetable, nodes: Seq<usize>, entry: ((usize, usize), usize)) -> bool {
    &&& first_pair(nodes, entry.0, 0) is Some
    &&& edge_made_for(g, entry.1 as int, tt, nodes, first_pair(nodes, entry.0, 0)->0)
}

/// The segments made between consecutive stations, as an edge map: one new
/// segment per distinct pair of consecutive nodes, in order of first
/// appearance, numbered on from the network's earlier segments.
pub open spec fn tracks_made(g0: RouteGraph, g: RouteGraph, tt: JTrainGraphTimetable, nodes: Seq<usize>, map: Seq<((usize, usize), usize)>) -> bool {
    &&& g.node_count == g0.node_count
    &&& g.junctions@ == g0.junctions@
    &&& g.edges@.len() == g0.edges@.len() + map.len()
    &&& g.edges@.take(g0.edges@.len() as int) == g0.edges@
    &&& forall|k: int| 0 <= k < map.len() ==> (#[trigger] map[k]).1 == g0.edges@.len() + k
    &&& forall|k: int| 0 <= k < map.len() ==> entry_made(g, tt, nodes, #[trigger] map[k])
    &&& forall|j: int| 0 <= j < nodes.len() - 1 ==> #[trigger] edge_for(map, (nodes[j], nodes[j + 1])) is Some
    &&& forall|a: int, b: int| 0 <= a < b < map.len() ==> (#[trigger] map[a]).0 != (#[trigger] map[b]).0
}

proof fn lemma_edge_for_push(map: Seq<((usize, usize), usize)>, x: ((usize, usize), usize), key: (usize, usize))
    ensures
        edge_for(map.push(x), key) == (match edge_for(map, key) {
            Some(e) => Some(e),
            None => if x.0 == key { Some(x.1) } else { None },
        }),
    decreases map.len(),
{
    if map.len() > 0 {
        assert(map.push(x)[0] == map[0]);
        assert(map.push(x).drop_first() =~= map.drop_first().push(x));
        lemma_edge_for_push(map.drop_first(), x, key);
    } else {
        assert(map.push(x)[0] == x);
        assert(map.push(x).drop_first() =~= Seq::<((usize, usize), usize)>::empty());
        assert(edge_for(Seq::<((usize, usize), usize)>::empty(), key) is None);
        assert(edge_for(map, key) is None);
    }
}

proof fn lemma_edge_for_found(map: Seq<((usize, usize), usize)>, key: (usize, usize))
    ensures
        edge_for(map, key) matches Some(e) ==> exists|k: int| 0 <= k < map.len() && #[trigger] map[k] == (key, e),
        edge_for(map, key) is None ==> forall|k: int| 0 <= k < map.len() ==> (#[trigger] map[k]).0 != key,
    decreases map.len(),
{
    if map.len() > 0 {
        lemma_edge_for_found(map.drop_first(), key);
        if map[0].0 != key {
            if edge_for(map, key) is Some {
                let e = edge_for(map, key)->0;
                let k = choose|k: int| 0 <= k < map.drop_first().len() && #[trigger] map.drop_first()[k] == (key, e);
                assert(map[k + 1] == (key, e));
            } else {
                assert forall|k: int| 0 <= k < map.len() implies (#[trigger] map[k]).0 != key by {
                    if k > 0 {
                        assert(map[k] == map.drop_first()[k - 1]);
                    }
                }
            }
        } else {
            assert(map[0] == (key, map[0].1));
        }
    }
}

proof fn lemma_first_pair_bound(nodes: Seq<usize>, key: (usize, usize), i: int)
    requires
        0 <= i,
    ensures
        first_pair(nodes, key, i) matches Some(j) ==> i <= j < nodes.len() - 1 && (nodes[j], nodes[j + 1]) == key
            && forall|j2: int| i <= j2 < j ==> (#[trigger] nodes[j2], nodes[j2 + 1]) != key,
        first_pair(nodes, key, i) is None ==> forall|j: int| i <= j < nodes.len() - 1 ==> (#[trigger] nodes[j], nodes[j + 1]) != key,
    decreases nodes.len() - i,
{
    if i + 1 < nodes.len() && (nodes[i], nodes[i + 1]) != key {
        lemma_first_pair_bound(nodes, key, i + 1);
    }
}

fn edge_for_exec(map: &Vec<((usize, usize), usize)>, key: (usize, usize)) -> (r: Option<usize>)
    ensures
        r == edge_for(map@, key),
{
    let mut i: usize = 0;
    assert(map@.skip(0) =~= map@);
    while i < map.len()
        invariant
            i <= map@.len(),
            edge_for(map@, key) == edge_for(map@.skip(i as int), key),
        decreases map@.len() - i,
    {
        if map[i].0.0 == key.0 && map[i].0.1 == key.1 {
            proof {
                assert(map@.skip(i as int)[0] == map@[i as int]);
            }
            return Some(map[i].1);
        }
        proof {
            assert(map@.skip(i as int).drop_first() =~= map@.skip(i + 1));
        }
        i = i + 1;
    }
    proof {
        assert(map@.skip(i as int).len() == 0);
    }
    None
}

/// Create one segment between each pair of consecutive timetable stations
/// whose nodes no earlier pair joined (see `tracks_made`); returns the edge
/// map from pairs of nodes to segments.
pub fn create_jtraingraph_tracks(timetable: &JTrainGraphTimetable, graph: &mut RouteGraph, nodes: &Vec<usize>) -> (r: Vec<((usize, usize), usize)>)
    requires
        graph_wf(*old(graph)),
        nodes@.len() == timetable.stations.stations@.len(),
        forall|j: int| 0 <= j < nodes@.len() ==> #[trigger] nodes@[j] < old(graph).node_count,
        old(graph).edges@.len() + nodes@.len() <= usize::MAX,
    ensures
        graph_wf(*final(graph)),
        tracks_made(*old(graph), *final(graph), *timetable, nodes@, r@),
        map_joins(*final(graph), r@),
{
    let ghost g0 = *graph;
    let mut map: Vec<((usize, usize), usize)> = Vec::new();
    let n = nodes.len();
    let mut i: usize = 0;
    proof {
        assert(graph.edges@.take(g0.edges@.len() as int) =~= g0.edges@);
    }
    while i < n && i + 1 < n
        invariant
            n == nodes@.len(),
            n == timetable.stations.stations@.len(),
            forall|j: int| 0 <= j < n ==> #[trigger] nodes@[j] < g0.node_count,
            g0.edges@.len() + n <= usize::MAX,
            graph_wf(g0),
            graph.node_count == g0.node_count,
            graph.junctions@ == g0.junctions@,
            graph_wf(*graph),
            map@.len() <= i,
            i <= n,
            graph.edges@.len() == g0.edges@.len() + map@.len(),
            graph.edges@.take(g0.edges@.len() as int) == g0.edges@,
            forall|k: int| 0 <= k < map@.len() ==> (#[trigger] map@[k]).1 == g0.edges@.len() + k,
            forall|k: int| 0 <= k < map@.len() ==> entry_made(*graph, *timetable, nodes@, #[trigger] map@[k])
                && first_pair(nodes@, map@[k].0, 0)->0 < i,
            forall|j: int| 0 <= j < i && j < n - 1 ==> #[trigger] edge_for(map@, (nodes@[j], nodes@[j + 1])) is Some,
            forall|a: int, b: int| 0 <= a < b < map@.len() ==> (#[trigger] map@[a]).0 != (#[trigger] map@[b]).0,
        decreases n - i,
    {
        let key = (nodes[i], nodes[i + 1]);
        let ghost m0 = map@;
        let ghost gb = *graph;
        match edge_for_exec(&map, key) {
            Some(_) => {},
            None => {
                let from = &timetable.stations.stations[i];
                let to = &timetable.stations.stations[i + 1];
                let tc_chars = chars_of(from.tracks.as_str());
                let count: usize = match parse_unsigned(tc_chars.as_slice(), usize::MAX as u64) {
                    Some(v) => v as usize,
                    None => 1,
                };
                let tracks = create_tracks_with_count(count);
                let dps = find_platform_index(from.platforms.as_slice(), from.default_platform_away.as_str());
                let dpt = find_platform_index(to.platforms.as_slice(), to.default_platform_in.as_str());
                let e = graph.edges.len();
                graph.edges.push(GraphEdge {
                    source: key.0,
                    target: key.1,
                    tracks,
                    default_platform_source: dps,
                    default_platform_target: dpt,
                });
                map.push((key, e));
                proof {
                    lemma_edge_for_found(m0, key);
                    lemma_first_pair_bound(nodes@, key, 0);
                    assert(first_pair(nodes@, key, 0) == Some(i as int)) by {
                        lemma_first_pair_bound(nodes@, key, 0);
                        if first_pair(nodes@, key, 0) is Some {
                            let j = first_pair(nodes@, key, 0)->0;
                            if j < i {
                                assert(edge_for(m0, (nodes@[j], nodes@[j + 1])) is Some);
                            }
                        }
                    }
                    lemma_found_platform(from.platforms@, from.default_platform_away@, dps);
                    lemma_found_platform(to.platforms@, to.default_platform_in@, dpt);
                    assert(graph.edges@.take(g0.edges@.len() as int) =~= g0.edges@);
                    assert forall|k: int| 0 <= k < map@.len() implies entry_made(*graph, *timetable, nodes@, #[trigger] map@[k])
                        && first_pair(nodes@, map@[k].0, 0)->0 < i + 1 by {
                        if k < m0.len() {
                            assert(map@[k] == m0[k]);
                            assert(graph.edges@[map@[k].1 as int] == gb.edges@[map@[k].1 as int]);
                        }
                    }
                    assert forall|j: int| 0 <= j < i + 1 && j < n - 1 implies #[trigger] edge_for(map@, (nodes@[j], nodes@[j + 1])) is Some by {
                        lemma_edge_for_push(m0, (key, e), (nodes@[j], nodes@[j + 1]));
                    }
                    assert forall|a: int, b: int| 0 <= a < b < map@.len() implies (#[trigger] map@[a]).0 != (#[trigger] map@[b]).0 by {
                        if b == m0.len() {
                            assert(map@[a] == m0[a]);
                        }
                    }
                }
            },
        }
        proof {
            if edge_for(m0, key) is Some {
                assert forall|j: int| 0 <= j < i + 1 && j < n - 1 implies #[trigger] edge_for(map@, (nodes@[j], nodes@[j + 1])) is Some by {}
            }
        }
        i = i + 1;
    }
    proof {
        assert forall|j: int| 0 <= j < n - 1 implies #[trigger] edge_for(map@, (nodes@[j], nodes@[j + 1])) is Some by {}
        assert forall|k: int| 0 <= k < map@.len() implies #[trigger] entry_joins(*graph, map@[k]) by {
            assert(entry_made(*graph, *timetable, nodes@, map@[k]));
            lemma_first_pair_bound(nodes@, map@[k].0, 0);
        }
    }
    map
}

/// What `find_platform_index` found is the platform's position.
proof fn lemma_found_platform(plats: Seq<JTrainGraphPlatform>, name: Seq<char>, r: Option<usize>)
    requires
        name.len() == 0 ==> r is None,
        name.len() > 0 ==> match r {
            Some(i) => i < plats.len() && plats[i as int].name@ == name && forall|k: int|
                0 <= k < i ==> (#[trigger] plats[k]).name@ != name,
            None => forall|k: int| 0 <= k < plats.len() ==> (#[trigger] plats[k]).name@ != name,
        },
    ensures
        r == (match platform_position(plats, name, 0) {
            Some(p) => Some(p as usize),
            None => None,
        }),
{
    match r {
        Some(i) => lemma_platform_position(plats, name, 0, i as int),
        None => lemma_platform_position_none(plats, name, 0),
    }
}


/// The map's entry names a segment of the network from the first node of
/// its pair to the second.
pub open spec fn entry_joins(g: RouteGraph, entry: ((usize, usize), usize)) -> bool {
    &&& entry.1 < g.edges@.len()
    &&& g.edges@[entry.1 as int].source == entry.0.0
    &&& g.edges@[entry.1 as int].target == entry.0.1
}

/// Every entry of the edge map names a segment joining its pair.
pub open spec fn map_joins(g: RouteGraph, map: Seq<((usize, usize), usize)>) -> bool {
    forall|k: int| 0 <= k < map.len() ==> #[trigger] entry_joins(g, map[k])
}

/// The pair of nodes a hop between timetable stations `a` and `b` is looked
/// up by: the lower-numbered station's node first, as segments were made.
pub open spec fn hop_key(nodes: Seq<usize>, a: int, b: int) -> (usize, usize) {
    if a < b { (nodes[a], nodes[b]) } else { (nodes[b], nodes[a]) }
}

/// The hop's segment, if it has one, is the network's segment from the node
/// of its lower-numbered station to that of the other.
pub open spec fn hop_edge_joins(g: RouteGraph, nodes: Seq<usize>, hop: HopInfo) -> bool {
    match hop.edge_index {
        Some(e) => {
            let key = hop_key(nodes, hop.from_station as int, hop.to_station as int);
            &&& e < g.edges@.len()
            &&& g.edges@[e as int].source == key.0
            &&& g.edges@[e as int].target == key.1
        },
        None => true,
    }
}

/// Number of platforms of a node as the network gives it.
pub open spec fn node_platform_count(t: StationTable, n: usize) -> int {
    if n < t.platforms@.len() { t.platforms@[n as int]@.len() as int } else { 1 }
}

/// What the network says of hop `h` of a route (see `route_pairs`): the
/// stations it joins, the segment between their nodes (if the edge map has
/// one), that segment's tracks, the platforms of both stations, and the
/// default platforms for leaving the first and arriving at the second.
pub open spec fn hop_ok(
    g: RouteGraph,
    t: StationTable,
    nodes: Seq<usize>,
    map: Seq<((usize, usize), usize)>,
    first: int,
    last: int,
    is_return: bool,
    handedness: TrackHandedness,
    hop: HopInfo,
    h: int,
) -> bool {
    let (a, b) = route_pairs(first, last, is_return)[h];
    let edge = edge_for(map, hop_key(nodes, a, b));
    let seg = match edge {
        Some(e) => Some(g.edges@[e as int]),
        None => None,
    };
    &&& hop.from_station == a
    &&& hop.to_station == b
    &&& hop.edge_index == edge
    &&& hop.tracks@ == (match seg {
        Some(s) => s.tracks@,
        None => Seq::empty(),
    })
    &&& platform_names(hop.origin_platforms@) == node_platforms(t)[nodes[a] as int]
    &&& platform_names(hop.destination_platforms@) == node_platforms(t)[nodes[b] as int]
    &&& hop.default_origin_platform == default_arrival_platform(seg, false, node_platform_count(t, nodes[a]), handedness)
    &&& hop.default_destination_platform == default_arrival_platform(seg, true, node_platform_count(t, nodes[b]), handedness)
}

/// What the network says about each hop of a line's route from timetable
/// station `first` to `last` (in travel order; see `hop_ok`). A hop's segment
/// is the one the edge map gives for its two stations' nodes, so it joins them.
pub fn build_jtraingraph_hops(
    graph: &RouteGraph,
    stations: &StationTable,
    nodes: &Vec<usize>,
    edge_map: &Vec<((usize, usize), usize)>,
    first: usize,
    last: usize,
    is_return: bool,
    handedness: TrackHandedness,
) -> (r: Vec<HopInfo>)
    requires
        table_wf(*graph, *stations),
        last < nodes@.len(),
        forall|j: int| 0 <= j < nodes@.len() ==> #[trigger] nodes@[j] < graph.node_count,
        map_joins(*graph, edge_map@),
    ensures
        r@.len() == route_pairs(first as int, last as int, is_return).len(),
        forall|h: int| 0 <= h < r@.len() ==> #[trigger] hop_ok(*graph, *stations, nodes@, edge_map@, first as int, last as int, is_return, handedness, r@[h], h),
        forall|h: int| 0 <= h < r@.len() ==> #[trigger] hop_edge_joins(*graph, nodes@, r@[h]),
{
    let pairs = crate::jtraingraph::route_station_pairs(first, last, is_return);
    let mut out: Vec<HopInfo> = Vec::new();
    let mut h: usize = 0;
    while h < pairs.len()
        invariant
            table_wf(*graph, *stations),
            last < nodes@.len(),
            forall|j: int| 0 <= j < nodes@.len() ==> #[trigger] nodes@[j] < graph.node_count,
            map_joins(*graph, edge_map@),
            pairs@.len() == route_pairs(first as int, last as int, is_return).len(),
            forall|q: int| 0 <= q < pairs@.len() ==> ((#[trigger] pairs@[q]).0 as int, pairs@[q].1 as int)
                == route_pairs(first as int, last as int, is_return)[q],
            h <= pairs@.len(),
            out@.len() == h,
            forall|q: int| 0 <= q < h ==> #[trigger] hop_ok(*graph, *stations, nodes@, edge_map@, first as int, last as int, is_return, handedness, out@[q], q),
        decreases pairs@.len() - h,
    {
        let (a, b) = pairs[h];
        proof {
            assert(((pairs@[h as int]).0 as int, pairs@[h as int].1 as int) == route_pairs(first as int, last as int, is_return)[h as int]);
            assert(a <= last && b <= last);
        }
        let na = nodes[a];
        let nb = nodes[b];
        let key = if a < b { (na, nb) } else { (nb, na) };
        let edge = edge_for_exec(edge_map, key);
        let tracks: Vec<Track> = match edge {
            Some(e) => {
                proof {
                    lemma_edge_for_found(edge_map@, key);
                    let k = choose|k: int| 0 <= k < edge_map@.len() && #[trigger] edge_map@[k] == (key, e);
                    assert(entry_joins(*graph, edge_map@[k]));
                }
                graph.edges[e].tracks.clone()
            },
            None => Vec::new(),
        };
        let ca: usize = stations.platforms[na].len();
        let cb: usize = stations.platforms[nb].len();
        let (da, db) = match edge {
            Some(e) => (
                graph.get_default_platform_for_arrival(e, false, ca, handedness),
                graph.get_default_platform_for_arrival(e, true, cb, handedness),
            ),
            None => (
                default_for_none(false, ca, handedness),
                default_for_none(true, cb, handedness),
            ),
        };
        let hop = HopInfo {
            from_station: a,
            to_station: b,
            edge_index: edge,
            tracks,
            origin_platforms: copy_platforms(&stations.platforms[na]),
            destination_platforms: copy_platforms(&stations.platforms[nb]),
            default_origin_platform: da,
            default_destination_platform: db,
        };
        proof {
            assert(tracks@ == (match edge {
                Some(e) => graph.edges@[e as int].tracks@,
                None => Seq::<Track>::empty(),
            }));
            assert(hop_ok(*graph, *stations, nodes@, edge_map@, first as int, last as int, is_return, handedness, hop, h as int));
        }
        out.push(hop);
        h = h + 1;
    }
    proof {
        assert forall|q: int| 0 <= q < out@.len() implies #[trigger] hop_edge_joins(*graph, nodes@, out@[q]) by {
            assert(hop_ok(*graph, *stations, nodes@, edge_map@, first as int, last as int, is_return, handedness, out@[q], q));
            let key = hop_key(nodes@, out@[q].from_station as int, out@[q].to_station as int);
            lemma_edge_for_found(edge_map@, key);
            if out@[q].edge_index is Some {
                let e = out@[q].edge_index->0;
                let k = choose|k: int| 0 <= k < edge_map@.len() && #[trigger] edge_map@[k] == (key, e);
                assert(entry_joins(*graph, edge_map@[k]));
            }
        }
    }
    out
}

/// The default platform for a hop without a segment.
fn default_for_none(arriving_at_target: bool, platform_count: usize, handedness: TrackHandedness) -> (r: usize)
    ensures
        r == default_arrival_platform(None, arriving_at_target, platform_count as int, handedness),
{
    if platform_count == 0 {
        0
    } else {
        match (handedness, arriving_at_target) {
            (TrackHandedness::RightHand, true) | (TrackHandedness::LeftHand, false) => platform_count - 1,
            (TrackHandedness::RightHand, false) | (TrackHandedness::LeftHand, true) => 0,
        }
    }
}


/// The station node named `name`: the first node with that name, or a new
/// station node (with platforms "1" and "2") when there is none.
pub fn add_or_get_station(graph: &mut RouteGraph, stations: &mut StationTable, name: &str) -> (r: usize)
    requires
        graph_wf(*old(graph)),
        table_wf(*old(graph), *old(stations)),
        old(graph).node_count < usize::MAX,
    ensures
        graph_wf(*final(graph)),
        table_wf(*final(graph), *final(stations)),
        final(graph).edges@ == old(graph).edges@,
        match first_named(node_names(*old(stations)), name@, 0) {
            Some(k) => {
                &&& r == k
                &&& final(graph).node_count == old(graph).node_count
                &&& final(graph).junctions@ == old(graph).junctions@
                &&& node_names(*final(stations)) == node_names(*old(stations))
                &&& node_platforms(*final(stations)) == node_platforms(*old(stations))
            },
            None => {
                &&& r == old(graph).node_count
                &&& final(graph).node_count == old(graph).node_count + 1
                &&& final(graph).junctions@ == old(graph).junctions@.push(None)
                &&& node_names(*final(stations)) == node_names(*old(stations)).push(Some(name@))
                &&& node_platforms(*final(stations)) == node_platforms(*old(stations)).push(default_platform_names())
            },
        },
{
    proof {
        lemma_first_named_bound(node_names(*stations), name@, 0);
    }
    match find_named(stations, name) {
        Some(k) => k,
        None => {
            let idx = graph.node_count;
            let ghost before = *stations;
            let owned = String::from_str(name);
            assert(owned@ == name@);
            stations.names.push(Some(owned));
            stations.platforms.push(default_station_platforms());
            graph.junctions.push(None);
            graph.node_count = graph.node_count + 1;
            proof {
                assert(node_names(*stations) =~= node_names(before).push(Some(name@)));
                assert(node_platforms(*stations) =~= node_platforms(before).push(default_platform_names()));
            }
            idx
        },
    }
}


/// The segment the edge map gives for hop `h` of the route from timetable
/// station `first` to `last`.
pub open spec fn route_edge(nodes: Seq<usize>, map: Seq<((usize, usize), usize)>, first: int, last: int, is_return: bool, h: int) -> Option<usize> {
    let (a, b) = route_pairs(first, last, is_return)[h];
    edge_for(map, hop_key(nodes, a, b))
}

proof fn lemma_first_missing_edge(hops: Seq<HopInfo>, i: int)
    requires
        0 <= i <= hops.len(),
    ensures
        first_missing_edge(hops, i) matches Some(h) ==> i <= h < hops.len() && hops[h].edge_index is None,
        first_missing_edge(hops, i) is None <==> forall|k: int| i <= k < hops.len() ==> (#[trigger] hops[k]).edge_index is Some,
    decreases hops.len() - i,
{
    if i < hops.len() {
        lemma_first_missing_edge(hops, i + 1);
        if hops[i].edge_index is Some {
            assert forall|k: int| i <= k < hops.len() && (forall|m: int| i + 1 <= m < hops.len() ==> (#[trigger] hops[m]).edge_index is Some)
                implies (#[trigger] hops[k]).edge_index is Some by {
                if k > i {
                    assert(hops[k].edge_index is Some);
                }
            }
        }
    }
}

proof fn lemma_planned_edges(hops: Seq<HopInfo>, pv: crate::jtraingraph::StopPatternView, trains: Seq<&JTrainGraphTrainInfo>, is_return: bool, n: int)
    requires
        0 <= n <= hops.len(),
    ensures
        planned_segments(hops, pv, trains, is_return, n).0.len() == n,
        forall|k: int| 0 <= k < n ==> (#[trigger] planned_segments(hops, pv, trains, is_return, n).0[k]).edge_index
            == (match hops[k].edge_index { Some(e) => e, None => 0 }),
    decreases n,
{
    if n > 0 {
        lemma_planned_edges(hops, pv, trains, is_return, n - 1);
        let segs = planned_segments(hops, pv, trains, is_return, n - 1).0;
        assert forall|k: int| 0 <= k < n implies (#[trigger] planned_segments(hops, pv, trains, is_return, n).0[k]).edge_index
            == (match hops[k].edge_index { Some(e) => e, None => 0 }) by {
            if k < n - 1 {
                assert(planned_segments(hops, pv, trains, is_return, n).0[k] == segs[k]);
            }
        }
    }
}

/// `hops` are what the network says of each hop of the route from timetable
/// station `first` to `last` (see `hop_ok`).
pub open spec fn route_hops(
    g: RouteGraph,
    t: StationTable,
    nodes: Seq<usize>,
    map: Seq<((usize, usize), usize)>,
    first: int,
    last: int,
    is_return: bool,
    handedness: TrackHandedness,
    hops: Seq<HopInfo>,
) -> bool {
    &&& hops.len() == route_pairs(first, last, is_return).len()
    &&& forall|h: int| 0 <= h < hops.len() ==> #[trigger] hop_ok(g, t, nodes, map, first, last, is_return, handedness, hops[h], h)
}

/// The route segments of one line of a jTrainGraph import: the hops the
/// network gives for its route from timetable station `first` to `last`
/// (see `build_jtraingraph_hops`), planned by `create_route_segments`.
/// The plan succeeds exactly when the edge map has a segment for every hop,
/// and then each planned segment is the network's segment joining the nodes
/// of its hop's two stations (the lower-numbered station's node first).
pub fn plan_jtraingraph_segments(
    graph: &RouteGraph,
    stations: &StationTable,
    nodes: &Vec<usize>,
    edge_map: &Vec<((usize, usize), usize)>,
    pattern: &StopPattern,
    trains: &[&JTrainGraphTrainInfo],
    first: usize,
    last: usize,
    is_return: bool,
    handedness: TrackHandedness,
) -> (r: Result<Vec<PlannedSegment>, String>)
    requires
        table_wf(*graph, *stations),
        last < nodes@.len(),
        forall|j: int| 0 <= j < nodes@.len() ==> #[trigger] nodes@[j] < graph.node_count,
        map_joins(*graph, edge_map@),
        pattern_wf(pattern@),
        trains@.len() > 0 ==> forall|k: int| 0 <= k < pattern@.0.len() ==> #[trigger] pattern@.0[k] < trains@[0].times@.len(),
    ensures
        r is Ok <==> forall|h: int| 0 <= h < route_pairs(first as int, last as int, is_return).len()
            ==> #[trigger] route_edge(nodes@, edge_map@, first as int, last as int, is_return, h) is Some,
        r matches Ok(v) ==> v@.len() == route_pairs(first as int, last as int, is_return).len(),
        r matches Ok(v) ==> forall|k: int| 0 <= k < v@.len() ==> {
            let (a, b) = route_pairs(first as int, last as int, is_return)[k];
            let key = hop_key(nodes@, a, b);
            let e = (#[trigger] v@[k]).edge_index;
            &&& route_edge(nodes@, edge_map@, first as int, last as int, is_return, k) == Some(e)
            &&& e < graph.edges@.len()
            &&& graph.edges@[e as int].source == key.0
            &&& graph.edges@[e as int].target == key.1
        },
        exists|hops: Seq<HopInfo>| {
            &&& #[trigger] route_hops(*graph, *stations, nodes@, edge_map@, first as int, last as int, is_return, handedness, hops)
            &&& match r {
                Ok(v) => first_missing_edge(hops, 0) is None && v@ == planned_segments(hops, pattern@, trains@, is_return, hops.len() as int).0,
                Err(e) => match first_missing_edge(hops, 0) {
                    Some(h) => e@ == crate::jtraingraph::missing_edge_message(hops[h]),
                    None => false,
                },
            }
        },
{
    let hops = build_jtraingraph_hops(graph, stations, nodes, edge_map, first, last, is_return, handedness);
    let ghost pairs = route_pairs(first as int, last as int, is_return);
    proof {
        assert forall|h: int| 0 <= h < hops@.len() implies ((#[trigger] hops@[h]).from_station as int, hops@[h].to_station as int) == pairs[h] by {
            assert(hop_ok(*graph, *stations, nodes@, edge_map@, first as int, last as int, is_return, handedness, hops@[h], h));
        }
    }
    let r = create_route_segments(pattern, trains, first, last, hops.as_slice(), is_return);
    proof {
        let hs = hops@;
        lemma_first_missing_edge(hs, 0);
        lemma_planned_edges(hs, pattern@, trains@, is_return, hs.len() as int);
        assert forall|h: int| 0 <= h < hs.len() implies #[trigger] route_edge(nodes@, edge_map@, first as int, last as int, is_return, h) == hs[h].edge_index by {
            assert(hop_ok(*graph, *stations, nodes@, edge_map@, first as int, last as int, is_return, handedness, hs[h], h));
        }
        if r is Ok {
            let v = r->Ok_0;
            assert forall|k: int| 0 <= k < v@.len() implies {
                let (a, b) = pairs[k];
                let key = hop_key(nodes@, a, b);
                let e = (#[trigger] v@[k]).edge_index;
                &&& route_edge(nodes@, edge_map@, first as int, last as int, is_return, k) == Some(e)
                &&& e < graph.edges@.len()
                &&& graph.edges@[e as int].source == key.0
                &&& graph.edges@[e as int].target == key.1
            } by {
                assert(hs[k].edge_index is Some);
                assert(route_edge(nodes@, edge_map@, first as int, last as int, is_return, k) == hs[k].edge_index);
                assert(hop_edge_joins(*graph, nodes@, hs[k]));
                assert(hop_ok(*graph, *stations, nodes@, edge_map@, first as int, last as int, is_return, handedness, hs[k], k));
            }
        } else {
            let h = first_missing_edge(hs, 0)->0;
            assert(route_edge(nodes@, edge_map@, first as int, last as int, is_return, h) is None);
        }
        assert(hs.len() == pairs.len());
        assert(route_hops(*graph, *stations, nodes@, edge_map@, first as int, last as int, is_return, handedness, hs));
    }
    r
}

} // verus!
