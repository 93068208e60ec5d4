//! A line's routes read against the track network: the nodes a route passes
//! and the repair of track choices that run against the direction a route
//! actually travels over each segment.

use vstd::prelude::*;
use crate::route::{RouteSegment, LineRoutes, synced_return, route_uses, route_uses_exec, span_ok, route_ok};
use vstd::arithmetic::div_mod::{lemma_fundamental_div_mod, lemma_fundamental_div_mod_converse, lemma_mod_pos_bound, lemma_div_nonincreasing, lemma_div_pos_is_pos};
use crate::routing::{RouteGraph, first_track_for, default_arrival_platform, graph_wf, arrivals, is_route_between, route_between};
use crate::track::{TrackHandedness, track_incompatible, is_track_incompatible};
use crate::line::{RouteDirection, StationPosition};

verus! {

/// The end nodes (source, target) of segment `e`, if the network has it.
pub open spec fn edge_ends(g: RouteGraph, e: usize) -> Option<(usize, usize)> {
    if e < g.edges@.len() {
        Some((g.edges@[e as int].source, g.edges@[e as int].target))
    } else {
        None
    }
}

/// The node a route is taken to start from: with two known leading
/// segments, the end of the first that does not touch the second (its
/// source when its target touches the second); with an unknown second
/// segment, the first one's source; otherwise unknown.
pub open spec fn walk_start(g: RouteGraph, route: Seq<RouteSegment>) -> Option<usize> {
    if route.len() >= 2 {
        match edge_ends(g, route[0].edge_index) {
            None => None,
            Some(first) => match edge_ends(g, route[1].edge_index) {
                None => Some(first.0),
                Some(second) => if first.1 == second.0 || first.1 == second.1 {
                    Some(first.0)
                } else {
                    Some(first.1)
                },
            },
        }
    } else {
        None
    }
}

/// Walking the first `n` segments of a route: the node reached (if known),
/// the segments with their tracks repaired, and how many were repaired.
/// A segment over an unknown edge is kept and does not move the walk. On a
/// known edge the walk travels forward when it stands at the source (or
/// does not know where it stands), else backward; a track that does not
/// exist or does not allow that direction is replaced by the first track
/// that does (or track 0).
pub open spec fn fixed_walk(g: RouteGraph, route: Seq<RouteSegment>, n: int) -> (Option<usize>, Seq<RouteSegment>, int)
    decreases n,
{
    if n <= 0 {
        (walk_start(g, route), Seq::empty(), 0)
    } else {
        let prev = fixed_walk(g, route, n - 1);
        let seg = route[n - 1];
        match edge_ends(g, seg.edge_index) {
            None => (prev.0, prev.1.push(seg), prev.2),
            Some(ends) => {
                let at = match prev.0 {
                    Some(c) => c,
                    None => ends.0,
                };
                let forward = at == ends.0;
                let next = if forward { ends.1 } else { ends.0 };
                let ts = g.edges@[seg.edge_index as int].tracks@;
                if track_incompatible(Some(ts), seg.track_index as int, forward) {
                    let fixed = RouteSegment {
                        edge_index: seg.edge_index,
                        track_index: first_track_for(ts, !forward, 0) as usize,
                        origin_platform: seg.origin_platform,
                        destination_platform: seg.destination_platform,
                        duration: seg.duration,
                        wait_time: seg.wait_time,
                    };
                    (Some(next), prev.1.push(fixed), prev.2 + 1)
                } else {
                    (Some(next), prev.1.push(seg), prev.2)
                }
            },
        }
    }
}

/// The walk yields one segment per segment read and repairs at most as many.
pub proof fn lemma_fixed_walk_len(g: RouteGraph, route: Seq<RouteSegment>, n: int)
    requires
        0 <= n,
    ensures
        fixed_walk(g, route, n).1.len() == n,
        0 <= fixed_walk(g, route, n).2 <= n,
    decreases n,
{
    if n > 0 {
        lemma_fixed_walk_len(g, route, n - 1);
    }
}

/// Repairing only ever changes the track of a segment.
pub proof fn lemma_fixed_walk_keeps_segments(g: RouteGraph, route: Seq<RouteSegment>, n: int, i: int)
    requires
        0 <= i < n <= route.len(),
    ensures
        fixed_walk(g, route, n).1[i].edge_index == route[i].edge_index,
        fixed_walk(g, route, n).1[i].origin_platform == route[i].origin_platform,
        fixed_walk(g, route, n).1[i].destination_platform == route[i].destination_platform,
        fixed_walk(g, route, n).1[i].duration == route[i].duration,
        fixed_walk(g, route, n).1[i].wait_time == route[i].wait_time,
    decreases n,
{
    lemma_fixed_walk_len(g, route, n - 1);
    if i < n - 1 {
        lemma_fixed_walk_keeps_segments(g, route, n - 1, i);
    }
}

/// Walking further does not change what the walk made of earlier segments.
proof fn lemma_fixed_walk_prefix(g: RouteGraph, route: Seq<RouteSegment>, m: int, n: int, i: int)
    requires
        0 <= i < m <= n,
    ensures
        fixed_walk(g, route, n).1[i] == fixed_walk(g, route, m).1[i],
    decreases n - m,
{
    lemma_fixed_walk_len(g, route, m);
    if m < n {
        lemma_fixed_walk_len(g, route, n - 1);
        lemma_fixed_walk_prefix(g, route, m, n - 1, i);
    }
}

/// Walking the repaired route goes the same way and repairs nothing more.
proof fn lemma_fixed_walk_again(g: RouteGraph, route: Seq<RouteSegment>, n: int)
    requires
        0 <= n <= route.len(),
    ensures
        ({
            let fixed = fixed_walk(g, route, route.len() as int).1;
            &&& fixed_walk(g, fixed, n).0 == fixed_walk(g, route, n).0
            &&& fixed_walk(g, fixed, n).1 == fixed_walk(g, route, n).1
        }),
    decreases n,
{
    let len = route.len() as int;
    let fixed = fixed_walk(g, route, len).1;
    lemma_fixed_walk_len(g, route, len);
    if n == 0 {
        if len >= 2 {
            lemma_fixed_walk_keeps_segments(g, route, len, 0);
            lemma_fixed_walk_keeps_segments(g, route, len, 1);
        }
        assert(walk_start(g, fixed) == walk_start(g, route));
    } else {
        lemma_fixed_walk_again(g, route, n - 1);
        lemma_fixed_walk_len(g, route, n);
        lemma_fixed_walk_prefix(g, route, n, len, n - 1);
        lemma_fixed_walk_keeps_segments(g, route, len, n - 1);
        assert(fixed[n - 1] == fixed_walk(g, route, n).1[n - 1]);
        assert(fixed_walk(g, fixed, n).1 =~= fixed_walk(g, route, n).1);
    }
}

fn edge_ends_exec(g: &RouteGraph, e: usize) -> (r: Option<(usize, usize)>)
    ensures
        r == edge_ends(*g, e),
{
    if e < g.edges.len() {
        Some((g.edges[e].source, g.edges[e].target))
    } else {
        None
    }
}

fn walk_start_exec(g: &RouteGraph, route: &Vec<RouteSegment>) -> (r: Option<usize>)
    ensures
        r == walk_start(*g, route@),
{
    if route.len() >= 2 {
        match edge_ends_exec(g, route[0].edge_index) {
            None => None,
            Some(first) => match edge_ends_exec(g, route[1].edge_index) {
                None => Some(first.0),
                Some(second) => if first.1 == second.0 || first.1 == second.1 {
                    Some(first.0)
                } else {
                    Some(first.1)
                },
            },
        }
    } else {
        None
    }
}

/// Repair the tracks of one route as `fixed_walk` describes; returns the
/// number of segments repaired.
fn fix_walked_route(g: &RouteGraph, route: &mut Vec<RouteSegment>) -> (count: usize)
    ensures
        final(route)@ == fixed_walk(*g, old(route)@, old(route)@.len() as int).1,
        count == fixed_walk(*g, old(route)@, old(route)@.len() as int).2,
{
    let ghost orig = route@;
    let mut current = walk_start_exec(g, route);
    let mut count: usize = 0;
    let mut i: usize = 0;
    proof {
        lemma_fixed_walk_len(*g, orig, 0);
    }
    while i < route.len()
        invariant
            route@.len() == orig.len(),
            i <= orig.len(),
            route@.subrange(0, i as int) == fixed_walk(*g, orig, i as int).1,
            forall|j: int| i <= j < orig.len() ==> route@[j] == orig[j],
            current == fixed_walk(*g, orig, i as int).0,
            count == fixed_walk(*g, orig, i as int).2,
            count <= i,
        decreases orig.len() - i,
    {
        proof {
            lemma_fixed_walk_len(*g, orig, i as int + 1);
        }
        let seg = route[i];
        match edge_ends_exec(g, seg.edge_index) {
            None => {},
            Some(ends) => {
                let at = match current {
                    Some(c) => c,
                    None => ends.0,
                };
                let forward = at == ends.0;
                let next = if forward { ends.1 } else { ends.0 };
                let tracks = &g.edges[seg.edge_index].tracks;
                if is_track_incompatible(Some(tracks), seg.track_index, forward) {
                    let t = g.select_track_for_direction(seg.edge_index, !forward);
                    route.set(i, RouteSegment { track_index: t, ..seg });
                    count = count + 1;
                }
                current = Some(next);
            },
        }
        proof {
            assert(route@.subrange(0, i as int + 1) =~= fixed_walk(*g, orig, i as int + 1).1);
        }
        i = i + 1;
    }
    proof {
        assert(route@ =~= route@.subrange(0, orig.len() as int));
    }
    count
}

/// The nodes of the network (below `node_count`) after adding `x`, unless
/// it is already there or not a node.
pub open spec fn add_path_node(g: RouteGraph, path: Seq<usize>, x: usize) -> Seq<usize> {
    if x < g.node_count && !path.contains(x) {
        path.push(x)
    } else {
        path
    }
}

/// The nodes met along the first `n` segments of a route, in order of first
/// meeting, each segment's source before its target; segments over unknown
/// edges add nothing.
pub open spec fn station_path_upto(g: RouteGraph, route: Seq<RouteSegment>, n: int) -> Seq<usize>
    decreases n,
{
    if n <= 0 {
        Seq::empty()
    } else {
        let prev = station_path_upto(g, route, n - 1);
        match edge_ends(g, route[n - 1].edge_index) {
            None => prev,
            Some(ends) => add_path_node(g, add_path_node(g, prev, ends.0), ends.1),
        }
    }
}

/// The path holds no node twice and only nodes of the network.
pub proof fn lemma_station_path_distinct(g: RouteGraph, route: Seq<RouteSegment>, n: int)
    ensures
        station_path_upto(g, route, n).no_duplicates(),
        forall|k: int| 0 <= k < station_path_upto(g, route, n).len() ==> #[trigger] station_path_upto(g, route, n)[k] < g.node_count,
    decreases n,
{
    if n > 0 {
        lemma_station_path_distinct(g, route, n - 1);
    }
}

/// Every node that a known segment among the first `n` joins is on the path.
pub proof fn lemma_station_path_covers(g: RouteGraph, route: Seq<RouteSegment>, n: int, i: int)
    requires
        0 <= i < n,
        edge_ends(g, route[i].edge_index) is Some,
    ensures
        ({
            let ends = edge_ends(g, route[i].edge_index)->0;
            &&& ends.0 < g.node_count ==> station_path_upto(g, route, n).contains(ends.0)
            &&& ends.1 < g.node_count ==> station_path_upto(g, route, n).contains(ends.1)
        }),
    decreases n,
{
    let prev = station_path_upto(g, route, n - 1);
    if i < n - 1 {
        lemma_station_path_covers(g, route, n - 1, i);
    }
    match edge_ends(g, route[n - 1].edge_index) {
        None => {},
        Some(ends) => {
            let p1 = add_path_node(g, prev, ends.0);
            let p2 = add_path_node(g, p1, ends.1);
            assert forall|x: usize| prev.contains(x) implies p2.contains(x) by {
                let k = choose|k: int| 0 <= k < prev.len() && prev[k] == x;
                assert(p1[k] == x);
                assert(p2[k] == x);
            }
            if ends.0 < g.node_count {
                if !prev.contains(ends.0) {
                    assert(p1[p1.len() - 1] == ends.0);
                }
                assert(p1.contains(ends.0));
                let k = choose|k: int| 0 <= k < p1.len() && p1[k] == ends.0;
                assert(p2[k] == ends.0);
            }
            if ends.1 < g.node_count && !p1.contains(ends.1) {
                assert(p2[p2.len() - 1] == ends.1);
            }
        },
    }
}

fn contains_node(v: &Vec<usize>, x: usize) -> (r: bool)
    ensures
        r == v@.contains(x),
{
    let mut i: usize = 0;
    while i < v.len()
        invariant
            i <= v@.len(),
            forall|k: int| 0 <= k < i ==> v@[k] != x,
        decreases v.len() - i,
    {
        if v[i] == x {
            return true;
        }
        i = i + 1;
    }
    false
}

fn add_path_node_exec(g: &RouteGraph, path: &mut Vec<usize>, x: usize)
    ensures
        final(path)@ == add_path_node(*g, old(path)@, x),
{
    if x < g.node_count && !contains_node(path, x) {
        path.push(x);
    }
}

impl LineRoutes {
    /// Validate and fix the track of every segment of both routes: walking
    /// each route from its start node (see `walk_start`), a segment whose
    /// track does not exist or does not allow the direction the route
    /// travels over it gets the first track that does. Returns the number of
    /// segments corrected.
    pub fn validate_and_fix_track_indices(&mut self, graph: &RouteGraph) -> (r: usize)
        requires
            old(self).forward_route@.len() + old(self).return_route@.len() <= usize::MAX,
        ensures
            final(self).forward_route@ == fixed_walk(*graph, old(self).forward_route@, old(self).forward_route@.len() as int).1,
            final(self).return_route@ == fixed_walk(*graph, old(self).return_route@, old(self).return_route@.len() as int).1,
            r == fixed_walk(*graph, old(self).forward_route@, old(self).forward_route@.len() as int).2
                + fixed_walk(*graph, old(self).return_route@, old(self).return_route@.len() as int).2,
            final(self).sync_routes == old(self).sync_routes,
            final(self).first_stop_wait_time == old(self).first_stop_wait_time,
    {
        proof {
            lemma_fixed_walk_len(*graph, self.forward_route@, self.forward_route@.len() as int);
            lemma_fixed_walk_len(*graph, self.return_route@, self.return_route@.len() as int);
        }
        let forward_fixed = fix_walked_route(graph, &mut self.forward_route);
        let return_fixed = fix_walked_route(graph, &mut self.return_route);
        forward_fixed + return_fixed
    }

    /// The ordered list of the nodes (stations and junctions) the forward
    /// route passes, each once, in order of first meeting (see `station_path_upto`).
    pub fn get_station_path(&self, graph: &RouteGraph) -> (r: Vec<usize>)
        ensures
            r@ == station_path_upto(*graph, self.forward_route@, self.forward_route@.len() as int),
            r@.no_duplicates(),
    {
        let mut path: Vec<usize> = Vec::new();
        let mut i: usize = 0;
        while i < self.forward_route.len()
            invariant
                i <= self.forward_route@.len(),
                path@ == station_path_upto(*graph, self.forward_route@, i as int),
            decreases self.forward_route@.len() - i,
        {
            match edge_ends_exec(graph, self.forward_route[i].edge_index) {
                None => {},
                Some(ends) => {
                    add_path_node_exec(graph, &mut path, ends.0);
                    add_path_node_exec(graph, &mut path, ends.1);
                },
            }
            i = i + 1;
        }
        proof {
            lemma_station_path_distinct(*graph, self.forward_route@, self.forward_route@.len() as int);
        }
        path
    }
}

/// The path of a line holds every node of the network that a known segment
/// of its forward route joins.
pub proof fn law_station_path_covers_route(g: RouteGraph, l: LineRoutes, i: int)
    requires
        0 <= i < l.forward_route@.len(),
        edge_ends(g, l.forward_route@[i].edge_index) is Some,
    ensures
        ({
            let ends = edge_ends(g, l.forward_route@[i].edge_index)->0;
            let path = station_path_upto(g, l.forward_route@, l.forward_route@.len() as int);
            &&& ends.0 < g.node_count ==> path.contains(ends.0)
            &&& ends.1 < g.node_count ==> path.contains(ends.1)
        }),
{
    lemma_station_path_covers(g, l.forward_route@, l.forward_route@.len() as int, i);
}

/// Track repair changes nothing but tracks: every segment keeps its edge,
/// platforms and times, and the route keeps its length.
pub proof fn law_track_repair_keeps_route(g: RouteGraph, route: Seq<RouteSegment>, i: int)
    requires
        0 <= i < route.len(),
    ensures
        fixed_walk(g, route, route.len() as int).1.len() == route.len(),
        fixed_walk(g, route, route.len() as int).1[i].edge_index == route[i].edge_index,
        fixed_walk(g, route, route.len() as int).1[i].origin_platform == route[i].origin_platform,
        fixed_walk(g, route, route.len() as int).1[i].destination_platform == route[i].destination_platform,
        fixed_walk(g, route, route.len() as int).1[i].duration == route[i].duration,
        fixed_walk(g, route, route.len() as int).1[i].wait_time == route[i].wait_time,
{
    lemma_fixed_walk_len(g, route, route.len() as int);
    lemma_fixed_walk_keeps_segments(g, route, route.len() as int, i);
}


/// The route of a line in the given direction.
pub open spec fn route_of(l: LineRoutes, direction: RouteDirection) -> Seq<RouteSegment> {
    match direction {
        RouteDirection::Forward => l.forward_route@,
        RouteDirection::Return => l.return_route@,
    }
}

/// The (forward, return) routes after the route in `direction` becomes
/// `new_route`: a new forward route is followed by syncing the return route
/// when the line keeps them in sync.
pub open spec fn with_route(l: LineRoutes, direction: RouteDirection, new_route: Seq<RouteSegment>) -> (Seq<RouteSegment>, Seq<RouteSegment>) {
    match direction {
        RouteDirection::Forward => (
            new_route,
            if l.sync_routes { synced_return(new_route, l.return_route@, l.first_stop_wait_time) } else { l.return_route@ },
        ),
        RouteDirection::Return => (l.forward_route@, new_route),
    }
}

/// The line's routes are the given (forward, return) pair.
pub open spec fn routes_are(l: LineRoutes, routes: (Seq<RouteSegment>, Seq<RouteSegment>)) -> bool {
    l.forward_route@ == routes.0 && l.return_route@ == routes.1
}

/// Both routes are unchanged.
pub open spec fn routes_unchanged(before: LineRoutes, after: LineRoutes) -> bool {
    routes_are(after, (before.forward_route@, before.return_route@))
}

/// The node at the given end of a non-empty route: for the start, the end
/// of the first segment that does not touch the second (its source when
/// there is no second); for the end, the end of the last segment that does
/// not touch the one before it (its target when there is none). Unknown when
/// a segment it reads is not in the network.
pub open spec fn route_endpoint(g: RouteGraph, route: Seq<RouteSegment>, position: StationPosition) -> Option<usize> {
    match position {
        StationPosition::Start => match edge_ends(g, route[0].edge_index) {
            None => None,
            Some(first) => if route.len() > 1 {
                match edge_ends(g, route[1].edge_index) {
                    None => None,
                    Some(second) => Some(if first.1 == second.0 || first.1 == second.1 { first.0 } else { first.1 }),
                }
            } else {
                Some(first.0)
            },
        },
        StationPosition::End => match edge_ends(g, route.last().edge_index) {
            None => None,
            Some(last) => if route.len() > 1 {
                match edge_ends(g, route[route.len() - 2].edge_index) {
                    None => None,
                    Some(before) => Some(if last.0 == before.0 || last.0 == before.1 { last.1 } else { last.0 }),
                }
            } else {
                Some(last.1)
            },
        },
    }
}

/// Platforms of a node: as given, or one for a node the list does not cover.
pub open spec fn platforms_at(platform_counts: Seq<usize>, node: usize) -> int {
    if node < platform_counts.len() { platform_counts[node as int] as int } else { 1 }
}

/// The node is a passing loop.
pub open spec fn passing_loop_at(passing_loops: Seq<bool>, node: usize) -> bool {
    node < passing_loops.len() && passing_loops[node as int]
}

/// A route segment over segment `e` (with ends `ends`) of the network: the
/// given track, the default platforms at both ends, no running time, and the
/// given dwell.
pub open spec fn new_segment(
    g: RouteGraph,
    e: usize,
    ends: (usize, usize),
    track: int,
    platform_counts: Seq<usize>,
    handedness: TrackHandedness,
    wait: i128,
) -> RouteSegment {
    RouteSegment {
        edge_index: e,
        track_index: track as usize,
        origin_platform: default_arrival_platform(Some(g.edges@[e as int]), false, platforms_at(platform_counts, ends.0), handedness) as usize,
        destination_platform: default_arrival_platform(Some(g.edges@[e as int]), true, platforms_at(platform_counts, ends.1), handedness) as usize,
        duration: None,
        wait_time: wait,
    }
}

/// Walking the first `n` segments of `path` from node `start`: the node
/// reached and the route segments for them. Each segment is travelled
/// forward when the walk stands at its source, else backward, on the first
/// track allowing that direction; it dwells for no time when it leaves a
/// passing loop or a junction, else for `wait`. Segments not in the network
/// are passed over.
pub open spec fn walked_segments(
    g: RouteGraph,
    path: Seq<usize>,
    start: usize,
    wait: i128,
    platform_counts: Seq<usize>,
    passing_loops: Seq<bool>,
    handedness: TrackHandedness,
    n: int,
) -> (usize, Seq<RouteSegment>)
    decreases n,
{
    if n <= 0 {
        (start, Seq::empty())
    } else {
        let prev = walked_segments(g, path, start, wait, platform_counts, passing_loops, handedness, n - 1);
        let e = path[n - 1];
        match edge_ends(g, e) {
            None => prev,
            Some(ends) => {
                let cur = prev.0;
                let forward = cur == ends.0;
                let next = if forward { ends.1 } else { ends.0 };
                let quiet = passing_loop_at(passing_loops, cur) || (cur < g.junctions@.len() && g.junctions@[cur as int] is Some);
                let track = first_track_for(g.edges@[e as int].tracks@, !forward, 0);
                let seg = new_segment(g, e, ends, track, platform_counts, handedness, if quiet { 0 } else { wait });
                (next, prev.1.push(seg))
            },
        }
    }
}

/// The ends (from, to) of the path that joins a new station to a route's
/// existing end node.
pub open spec fn join_ends(position: StationPosition, station: usize, existing: usize) -> (usize, usize) {
    match position {
        StationPosition::Start => (station, existing),
        StationPosition::End => (existing, station),
    }
}

/// The route after joining a station at the given end by `path`: the new
/// segments go in front of the route, or after it.
pub open spec fn joined_route(
    g: RouteGraph,
    route: Seq<RouteSegment>,
    path: Seq<usize>,
    station: usize,
    existing: usize,
    position: StationPosition,
    wait: i128,
    platform_counts: Seq<usize>,
    passing_loops: Seq<bool>,
    handedness: TrackHandedness,
) -> Seq<RouteSegment> {
    let ends = join_ends(position, station, existing);
    let added = walked_segments(g, path, ends.0, wait, platform_counts, passing_loops, handedness, path.len() as int).1;
    match position {
        StationPosition::Start => added + route,
        StationPosition::End => route + added,
    }
}

/// What adding a station to a line's route does. An empty route is left
/// as it is (and that counts as success). Otherwise the route's end node at
/// the given position is found (failing when a segment it reads is unknown),
/// and the station is joined to it by a shortest route of the network, found
/// from the station to the start or from the end to the station; without one (or when
/// the station is that node) nothing changes and the answer is `false`.
pub open spec fn add_station_outcome(
    g: RouteGraph,
    before: LineRoutes,
    after: LineRoutes,
    r: bool,
    station: usize,
    direction: RouteDirection,
    position: StationPosition,
    handedness: TrackHandedness,
    wait: i128,
    platform_counts: Seq<usize>,
    passing_loops: Seq<bool>,
) -> bool {
    let route = route_of(before, direction);
    if route.len() == 0 {
        r && routes_unchanged(before, after)
    } else {
        match route_endpoint(g, route, position) {
            None => !r && routes_unchanged(before, after),
            Some(existing) => {
                let ends = join_ends(position, station, existing);
                &&& r == (ends.0 != ends.1 && exists|p: Seq<usize>| #[trigger] is_route_between(g, ends.0, ends.1, p))
                &&& !r ==> routes_unchanged(before, after)
                &&& r ==> exists|p: Seq<usize>| #[trigger] is_route_between(g, ends.0, ends.1, p)
                    && (forall|p2: Seq<usize>| #[trigger] is_route_between(g, ends.0, ends.1, p2) ==> p.len() <= p2.len())
                    && routes_are(after, with_route(before, direction, joined_route(
                        g, route, p, station, existing, position, wait, platform_counts, passing_loops, handedness,
                    )))
            },
        }
    }
}

/// The route segments for a route found between two stations: each on the
/// first track usable in the route's direction, with the default platforms
/// at both ends, no running time, and no dwell when its source is a passing
/// loop (else `wait`). Segments not in the network are passed over.
pub open spec fn between_segments(
    g: RouteGraph,
    path: Seq<usize>,
    direction: RouteDirection,
    wait: i128,
    platform_counts: Seq<usize>,
    passing_loops: Seq<bool>,
    handedness: TrackHandedness,
    n: int,
) -> Seq<RouteSegment>
    decreases n,
{
    if n <= 0 {
        Seq::empty()
    } else {
        let prev = between_segments(g, path, direction, wait, platform_counts, passing_loops, handedness, n - 1);
        let e = path[n - 1];
        match edge_ends(g, e) {
            None => prev,
            Some(ends) => {
                let track = first_track_for(g.edges@[e as int].tracks@, direction == RouteDirection::Return, 0);
                let w = if passing_loop_at(passing_loops, ends.0) { 0 } else { wait };
                prev.push(new_segment(g, e, ends, track, platform_counts, handedness, w))
            },
        }
    }
}

/// What creating a route between two stations does: with both stations
/// known, distinct and joined by a route of the network, the segments of a
/// shortest such route are appended to the line's route in `direction` and the answer
/// is `true`; otherwise nothing changes and the answer is `false`.
pub open spec fn create_route_outcome(
    g: RouteGraph,
    before: LineRoutes,
    after: LineRoutes,
    r: bool,
    first: Option<usize>,
    second: Option<usize>,
    direction: RouteDirection,
    handedness: TrackHandedness,
    wait: i128,
    platform_counts: Seq<usize>,
    passing_loops: Seq<bool>,
) -> bool {
    match (first, second) {
        (Some(a), Some(b)) => {
            &&& r == (a != b && exists|p: Seq<usize>| #[trigger] is_route_between(g, a, b, p))
            &&& !r ==> routes_unchanged(before, after)
            &&& r ==> exists|p: Seq<usize>| #[trigger] is_route_between(g, a, b, p)
                && (forall|p2: Seq<usize>| #[trigger] is_route_between(g, a, b, p2) ==> p.len() <= p2.len())
                && routes_are(after, with_route(before, direction, route_of(before, direction) + between_segments(
                    g, p, direction, wait, platform_counts, passing_loops, handedness, p.len() as int,
                )))
        },
        _ => !r && routes_unchanged(before, after),
    }
}

fn route_endpoint_exec(g: &RouteGraph, route: &Vec<RouteSegment>, position: StationPosition) -> (r: Option<usize>)
    requires
        route@.len() > 0,
    ensures
        r == route_endpoint(*g, route@, position),
{
    match position {
        StationPosition::Start => match edge_ends_exec(g, route[0].edge_index) {
            None => None,
            Some(first) => if route.len() > 1 {
                match edge_ends_exec(g, route[1].edge_index) {
                    None => None,
                    Some(second) => Some(if first.1 == second.0 || first.1 == second.1 { first.0 } else { first.1 }),
                }
            } else {
                Some(first.0)
            },
        },
        StationPosition::End => match edge_ends_exec(g, route[route.len() - 1].edge_index) {
            None => None,
            Some(last) => if route.len() > 1 {
                match edge_ends_exec(g, route[route.len() - 2].edge_index) {
                    None => None,
                    Some(before) => Some(if last.0 == before.0 || last.0 == before.1 { last.1 } else { last.0 }),
                }
            } else {
                Some(last.1)
            },
        },
    }
}

fn platforms_at_exec(platform_counts: &[usize], node: usize) -> (r: usize)
    ensures
        r == platforms_at(platform_counts@, node),
{
    if node < platform_counts.len() { platform_counts[node] } else { 1 }
}

fn passing_loop_at_exec(passing_loops: &[bool], node: usize) -> (r: bool)
    ensures
        r == passing_loop_at(passing_loops@, node),
{
    node < passing_loops.len() && passing_loops[node]
}

fn new_segment_exec(
    g: &RouteGraph,
    e: usize,
    ends: (usize, usize),
    track: usize,
    platform_counts: &[usize],
    handedness: TrackHandedness,
    wait: i128,
) -> (r: RouteSegment)
    requires
        e < g.edges@.len(),
    ensures
        r == new_segment(*g, e, ends, track as int, platform_counts@, handedness, wait),
{
    let origin_platform = g.get_default_platform_for_arrival(e, false, platforms_at_exec(platform_counts, ends.0), handedness);
    let destination_platform = g.get_default_platform_for_arrival(e, true, platforms_at_exec(platform_counts, ends.1), handedness);
    RouteSegment {
        edge_index: e,
        track_index: track,
        origin_platform,
        destination_platform,
        duration: None,
        wait_time: wait,
    }
}

fn walk_segments_exec(
    g: &RouteGraph,
    path: &Vec<usize>,
    start: usize,
    wait: i128,
    platform_counts: &[usize],
    passing_loops: &[bool],
    handedness: TrackHandedness,
) -> (r: Vec<RouteSegment>)
    ensures
        r@ == walked_segments(*g, path@, start, wait, platform_counts@, passing_loops@, handedness, path@.len() as int).1,
{
    let mut out: Vec<RouteSegment> = Vec::new();
    let mut cur = start;
    let mut k: usize = 0;
    while k < path.len()
        invariant
            k <= path@.len(),
            (cur, out@) == walked_segments(*g, path@, start, wait, platform_counts@, passing_loops@, handedness, k as int),
        decreases path@.len() - k,
    {
        let e = path[k];
        match edge_ends_exec(g, e) {
            None => {},
            Some(ends) => {
                let forward = cur == ends.0;
                let next = if forward { ends.1 } else { ends.0 };
                let quiet = passing_loop_at_exec(passing_loops, cur) || (cur < g.junctions.len() && g.junctions[cur].is_some());
                let track = g.select_track_for_direction(e, !forward);
                let seg = new_segment_exec(g, e, ends, track, platform_counts, handedness, if quiet { 0 } else { wait });
                out.push(seg);
                cur = next;
            },
        }
        k = k + 1;
    }
    out
}

fn between_segments_exec(
    g: &RouteGraph,
    path: &Vec<usize>,
    direction: RouteDirection,
    wait: i128,
    platform_counts: &[usize],
    passing_loops: &[bool],
    handedness: TrackHandedness,
) -> (r: Vec<RouteSegment>)
    ensures
        r@ == between_segments(*g, path@, direction, wait, platform_counts@, passing_loops@, handedness, path@.len() as int),
{
    let mut out: Vec<RouteSegment> = Vec::new();
    let traveling_backward = match direction {
        RouteDirection::Forward => false,
        RouteDirection::Return => true,
    };
    let mut k: usize = 0;
    while k < path.len()
        invariant
            k <= path@.len(),
            traveling_backward == (direction == RouteDirection::Return),
            out@ == between_segments(*g, path@, direction, wait, platform_counts@, passing_loops@, handedness, k as int),
        decreases path@.len() - k,
    {
        let e = path[k];
        match edge_ends_exec(g, e) {
            None => {},
            Some(ends) => {
                let track = g.select_track_for_direction(e, traveling_backward);
                let w: i128 = if passing_loop_at_exec(passing_loops, ends.0) { 0 } else { wait };
                let seg = new_segment_exec(g, e, ends, track, platform_counts, handedness, w);
                out.push(seg);
            },
        }
        k = k + 1;
    }
    out
}

/// `a` followed by `b`.
fn concat_segments(a: Vec<RouteSegment>, b: &Vec<RouteSegment>) -> (r: Vec<RouteSegment>)
    ensures
        r@ == a@ + b@,
{
    let mut out = a;
    let ghost a0 = out@;
    let mut k: usize = 0;
    while k < b.len()
        invariant
            k <= b@.len(),
            out@ == a0 + b@.subrange(0, k as int),
        decreases b@.len() - k,
    {
        out.push(b[k]);
        proof {
            assert(b@.subrange(0, k as int + 1) =~= b@.subrange(0, k as int).push(b@[k as int]));
        }
        k = k + 1;
    }
    proof {
        assert(b@.subrange(0, b@.len() as int) =~= b@);
    }
    out
}

impl LineRoutes {
    /// Replace the route in `direction` by `new_route`, syncing the return
    /// route after a new forward route.
    fn set_route(&mut self, direction: RouteDirection, new_route: Vec<RouteSegment>)
        ensures
            routes_are(*final(self), with_route(*old(self), direction, new_route@)),
            final(self).sync_routes == old(self).sync_routes,
            final(self).first_stop_wait_time == old(self).first_stop_wait_time,
    {
        match direction {
            RouteDirection::Forward => {
                self.forward_route = new_route;
                self.apply_route_sync_if_enabled();
            },
            RouteDirection::Return => {
                self.return_route = new_route;
            },
        }
    }

    /// Add a station at the start or end of the route in `direction` (see
    /// `add_station_outcome`): the station is joined to the route's end node
    /// by a route of the network, whose segments go in front of or after the
    /// route (see `walked_segments`). `platform_counts` gives each station's
    /// number of platforms (one for other nodes), `passing_loops` which
    /// stations are passing loops, and `default_wait_time` the dwell at
    /// ordinary stops (nanoseconds). Returns whether the station was added.
    pub fn add_station_to_route(
        &mut self,
        station_idx: usize,
        graph: &RouteGraph,
        direction: RouteDirection,
        position: StationPosition,
        handedness: TrackHandedness,
        default_wait_time: i128,
        platform_counts: &[usize],
        passing_loops: &[bool],
    ) -> (r: bool)
        requires
            graph_wf(*graph),
        ensures
            final(self).sync_routes == old(self).sync_routes,
            final(self).first_stop_wait_time == old(self).first_stop_wait_time,
            add_station_outcome(
                *graph,
                *old(self),
                *final(self),
                r,
                station_idx,
                direction,
                position,
                handedness,
                default_wait_time,
                platform_counts@,
                passing_loops@,
            ),
    {
        let ghost before = *self;
        let route = match direction {
            RouteDirection::Forward => &self.forward_route,
            RouteDirection::Return => &self.return_route,
        };
        if route.len() == 0 {
            return true;
        }
        let existing = match route_endpoint_exec(graph, route, position) {
            None => return false,
            Some(n) => n,
        };
        let (from, to) = match position {
            StationPosition::Start => (station_idx, existing),
            StationPosition::End => (existing, station_idx),
        };
        let path = match graph.find_path_between_nodes(from, to) {
            None => return false,
            Some(p) => p,
        };
        let added = walk_segments_exec(graph, &path, from, default_wait_time, platform_counts, passing_loops, handedness);
        let new_route = match position {
            StationPosition::Start => concat_segments(added, route),
            StationPosition::End => concat_segments(route.clone(), &added),
        };
        proof {
            assert(new_route@ == joined_route(
                *graph, route_of(before, direction), path@, station_idx, existing, position,
                default_wait_time, platform_counts@, passing_loops@, handedness,
            ));
        }
        self.set_route(direction, new_route);
        proof {
            assert(is_route_between(*graph, from, to, path@) && routes_are(*self, with_route(before, direction, joined_route(
                *graph, route_of(before, direction), path@, station_idx, existing, position,
                default_wait_time, platform_counts@, passing_loops@, handedness,
            ))));
        }
        true
    }

    /// Create a route between two stations (see `create_route_outcome`): the
    /// segments of a route of the network between them (see
    /// `between_segments`) are appended to the route in `direction`.
    /// `platform_counts`, `passing_loops` and `default_wait_time` are as for
    /// `add_station_to_route`. Returns whether a route was found.
    pub fn create_route_between_stations(
        &mut self,
        first: Option<usize>,
        second: Option<usize>,
        graph: &RouteGraph,
        direction: RouteDirection,
        handedness: TrackHandedness,
        default_wait_time: i128,
        platform_counts: &[usize],
        passing_loops: &[bool],
    ) -> (r: bool)
        requires
            graph_wf(*graph),
        ensures
            final(self).sync_routes == old(self).sync_routes,
            final(self).first_stop_wait_time == old(self).first_stop_wait_time,
            create_route_outcome(
                *graph,
                *old(self),
                *final(self),
                r,
                first,
                second,
                direction,
                handedness,
                default_wait_time,
                platform_counts@,
                passing_loops@,
            ),
    {
        let ghost before = *self;
        let (a, b) = match (first, second) {
            (Some(a), Some(b)) => (a, b),
            _ => return false,
        };
        let path = match graph.find_path_between_nodes(a, b) {
            None => return false,
            Some(p) => p,
        };
        let added = between_segments_exec(graph, &path, direction, default_wait_time, platform_counts, passing_loops, handedness);
        let new_route = match direction {
            RouteDirection::Forward => concat_segments(self.forward_route.clone(), &added),
            RouteDirection::Return => concat_segments(self.return_route.clone(), &added),
        };
        self.set_route(direction, new_route);
        proof {
            assert(is_route_between(*graph, a, b, path@) && routes_are(*self, with_route(before, direction, route_of(before, direction) + between_segments(
                *graph, path@, direction, default_wait_time, platform_counts@, passing_loops@, handedness, path@.len() as int,
            ))));
        }
        true
    }
}


/// The first node of `path` from index `i` on that is not a passing loop.
pub open spec fn first_regular(path: Seq<usize>, passing_loops: Seq<bool>, i: int) -> Option<usize>
    decreases path.len() - i,
{
    if i < 0 || i >= path.len() {
        None
    } else if !passing_loop_at(passing_loops, path[i]) {
        Some(path[i])
    } else {
        first_regular(path, passing_loops, i + 1)
    }
}

/// The last node among the first `n` of `path` that is not a passing loop.
pub open spec fn last_regular(path: Seq<usize>, passing_loops: Seq<bool>, n: int) -> Option<usize>
    decreases n,
{
    if n <= 0 || n > path.len() {
        None
    } else if !passing_loop_at(passing_loops, path[n - 1]) {
        Some(path[n - 1])
    } else {
        last_regular(path, passing_loops, n - 1)
    }
}

/// The terminal nodes of a line's forward route: the first and last nodes
/// of its station path that are not passing loops.
pub open spec fn forward_terminals(g: RouteGraph, l: LineRoutes, passing_loops: Seq<bool>) -> Option<(usize, usize)> {
    let path = station_path_upto(g, l.forward_route@, l.forward_route@.len() as int);
    match (first_regular(path, passing_loops, 0), last_regular(path, passing_loops, path.len() as int)) {
        (Some(a), Some(b)) => Some((a, b)),
        _ => None,
    }
}

fn first_regular_exec(path: &Vec<usize>, passing_loops: &[bool]) -> (r: Option<usize>)
    ensures
        r == first_regular(path@, passing_loops@, 0),
{
    let mut i: usize = 0;
    while i < path.len()
        invariant
            i <= path@.len(),
            first_regular(path@, passing_loops@, 0) == first_regular(path@, passing_loops@, i as int),
        decreases path@.len() - i,
    {
        if !passing_loop_at_exec(passing_loops, path[i]) {
            return Some(path[i]);
        }
        i = i + 1;
    }
    None
}

fn last_regular_exec(path: &Vec<usize>, passing_loops: &[bool]) -> (r: Option<usize>)
    ensures
        r == last_regular(path@, passing_loops@, path@.len() as int),
{
    let mut n: usize = path.len();
    while n > 0
        invariant
            n <= path@.len(),
            last_regular(path@, passing_loops@, path@.len() as int) == last_regular(path@, passing_loops@, n as int),
        decreases n,
    {
        if !passing_loop_at_exec(passing_loops, path[n - 1]) {
            return Some(path[n - 1]);
        }
        n = n - 1;
    }
    None
}

impl LineRoutes {
    /// Origin and destination of the forward direction: the first and the
    /// last node of the station path that are not passing loops (`None` when
    /// there is none), whatever way round the segments run.
    pub fn get_forward_route_endpoints(&self, graph: &RouteGraph, passing_loops: &[bool]) -> (r: Option<(usize, usize)>)
        ensures
            r == forward_terminals(*graph, *self, passing_loops@),
    {
        let path = self.get_station_path(graph);
        match (first_regular_exec(&path, passing_loops), last_regular_exec(&path, passing_loops)) {
            (Some(a), Some(b)) => Some((a, b)),
            _ => None,
        }
    }

    /// Origin and destination of the return direction: those of the forward
    /// direction, swapped.
    pub fn get_return_route_endpoints(&self, graph: &RouteGraph, passing_loops: &[bool]) -> (r: Option<(usize, usize)>)
        ensures
            r == match forward_terminals(*graph, *self, passing_loops@) {
                Some(t) => Some((t.1, t.0)),
                None => None,
            },
    {
        let path = self.get_station_path(graph);
        match (last_regular_exec(&path, passing_loops), first_regular_exec(&path, passing_loops)) {
            (Some(a), Some(b)) => Some((a, b)),
            _ => None,
        }
    }
}


/// Track repair is idempotent: repairing a repaired route leaves it as it is.
pub proof fn law_track_repair_idempotent(g: RouteGraph, route: Seq<RouteSegment>)
    ensures
        ({
            let once = fixed_walk(g, route, route.len() as int).1;
            fixed_walk(g, once, once.len() as int).1 == once
        }),
{
    lemma_fixed_walk_len(g, route, route.len() as int);
    lemma_fixed_walk_again(g, route, route.len() as int);
}


/// Integer division of a number by a positive divisor, rounding toward zero.
pub open spec fn trunc_div_pos(a: int, b: int) -> int {
    if a >= 0 { a / b } else { -((-a) / b) }
}

/// Integer division rounding toward zero (as Rust divides), for a nonzero divisor.
pub open spec fn trunc_div(a: int, b: int) -> int {
    if b < 0 { -trunc_div_pos(a, -b) } else { trunc_div_pos(a, b) }
}

/// A time span (nanoseconds) divided by a nonzero `i32` as a time delta
/// divides it: the whole seconds (rounded down) are divided rounding toward
/// zero, what they leave is carried over as nanoseconds and divided the same
/// way, and the leftover nanoseconds are divided separately.
pub open spec fn span_div(d: int, k: int) -> int {
    let secs = d / 1_000_000_000;
    let nanos = d % 1_000_000_000;
    let secs_q = trunc_div(secs, k);
    let carry = secs - secs_q * k;
    secs_q * 1_000_000_000 + trunc_div(nanos, k) + trunc_div(carry * 1_000_000_000, k)
}

/// Every shortest route from `from` to `to` has a number of segments that,
/// taken as an `i32` (as a detour's running time is divided), is not zero.
pub open spec fn detour_divisor_ok(g: RouteGraph, from: usize, to: usize) -> bool {
    forall|p: Seq<usize>| #[trigger] is_route_between(g, from, to, p)
        && (forall|p2: Seq<usize>| #[trigger] is_route_between(g, from, to, p2) ==> p.len() <= p2.len())
        ==> (p.len() as i32) != 0
}

/// The highest track index of segment `e` (0 when it has no tracks or is unknown).
pub open spec fn last_track(g: RouteGraph, e: usize) -> int {
    if e < g.edges@.len() && g.edges@[e as int].tracks@.len() > 0 {
        g.edges@[e as int].tracks@.len() - 1
    } else {
        0
    }
}

/// Segment `i` of the detour that replaces segment `s` along `path`: the
/// same track where the new segment has it (else its highest track), the
/// original platforms and dwell at the ends of the detour (0 inside it), and
/// an equal share of the running time on each segment.
pub open spec fn detour_segment(g: RouteGraph, s: RouteSegment, path: Seq<usize>, i: int) -> RouteSegment {
    RouteSegment {
        edge_index: path[i],
        track_index: (if s.track_index < last_track(g, path[i]) { s.track_index as int } else { last_track(g, path[i]) }) as usize,
        origin_platform: if i == 0 { s.origin_platform } else { 0 },
        destination_platform: if i == path.len() - 1 { s.destination_platform } else { 0 },
        duration: match s.duration {
            Some(d) => Some(span_div(d as int, (path.len() as i32) as int) as i128),
            None => None,
        },
        wait_time: if i == 0 { s.wait_time } else { 0 },
    }
}

/// The detour that replaces segment `s` along `path`.
pub open spec fn detour(g: RouteGraph, s: RouteSegment, path: Seq<usize>) -> Seq<RouteSegment> {
    Seq::new(path.len(), |i: int| detour_segment(g, s, path, i))
}

/// The first `n` segments of a route with every segment over `deleted`
/// replaced by its detour along `path`.
pub open spec fn rerouted(g: RouteGraph, route: Seq<RouteSegment>, deleted: usize, path: Seq<usize>, n: int) -> Seq<RouteSegment>
    decreases n,
{
    if n <= 0 {
        Seq::empty()
    } else {
        let prev = rerouted(g, route, deleted, path, n - 1);
        if route[n - 1].edge_index == deleted {
            prev + detour(g, route[n - 1], path)
        } else {
            prev.push(route[n - 1])
        }
    }
}

/// The route runs over the deleted segment and a route of the network joins
/// the two different nodes `from` and `to`.
pub open spec fn reroutes(g: RouteGraph, route: Seq<RouteSegment>, deleted: usize, from: usize, to: usize) -> bool {
    route_uses(route, deleted) && from != to && exists|p: Seq<usize>| #[trigger] is_route_between(g, from, to, p)
}

/// What rerouting a route around a deleted segment does: when the route
/// runs over it and a route of the network joins `from` to `to` (two
/// different nodes), every segment over it is replaced by a detour along one
/// shortest such route, and the answer is `true`; otherwise nothing changes.
pub open spec fn reroute_outcome(
    g: RouteGraph,
    before: Seq<RouteSegment>,
    after: Seq<RouteSegment>,
    r: bool,
    deleted: usize,
    from: usize,
    to: usize,
) -> bool {
    &&& r == reroutes(g, before, deleted, from, to)
    &&& !r ==> after == before
    &&& r ==> exists|p: Seq<usize>| #[trigger] is_route_between(g, from, to, p)
        && (forall|p2: Seq<usize>| #[trigger] is_route_between(g, from, to, p2) ==> p.len() <= p2.len())
        && after == rerouted(g, before, deleted, p, before.len() as int)
}

fn trunc_div_pos_exec(a: i128, b: i128) -> (r: i128)
    requires
        b > 0,
        a > i128::MIN,
    ensures
        r == trunc_div_pos(a as int, b as int),
{
    if a >= 0 {
        a / b
    } else {
        let m: i128 = -a;
        proof {
            lemma_div_nonincreasing(m as int, b as int);
            lemma_div_pos_is_pos(m as int, b as int);
        }
        -(m / b)
    }
}

fn trunc_div_exec(a: i128, b: i128) -> (r: i128)
    requires
        b != 0,
        a > i128::MIN,
        b > i128::MIN,
    ensures
        r == trunc_div(a as int, b as int),
{
    proof {
        lemma_trunc_div_bound(a as int, b as int);
    }
    if b < 0 {
        -trunc_div_pos_exec(a, -b)
    } else {
        trunc_div_pos_exec(a, b)
    }
}

proof fn lemma_trunc_div_bound(a: int, b: int)
    requires
        b != 0,
    ensures
        -(if a >= 0 { a } else { -a }) <= trunc_div(a, b) <= (if a >= 0 { a } else { -a }),
{
    let bb = if b < 0 { -b } else { b };
    if a >= 0 {
        lemma_div_nonincreasing(a, bb);
        lemma_div_pos_is_pos(a, bb);
    } else {
        lemma_div_nonincreasing(-a, bb);
        lemma_div_pos_is_pos(-a, bb);
    }
}

fn span_div_exec(d: i128, k: i128) -> (r: i128)
    requires
        span_ok(d as int),
        -2147483648 <= k <= 2147483647,
        k != 0,
    ensures
        r == span_div(d as int, k as int),
{
    let ghost di = d as int;
    let (secs, nanos): (i128, i128) = if d >= 0 {
        (d / 1_000_000_000, d % 1_000_000_000)
    } else {
        let m: i128 = -d;
        let q: i128 = m / 1_000_000_000;
        let rm: i128 = m % 1_000_000_000;
        proof {
            lemma_fundamental_div_mod(m as int, 1_000_000_000);
            lemma_mod_pos_bound(m as int, 1_000_000_000);
        }
        if rm == 0 { (-q, 0) } else { (-q - 1, 1_000_000_000 - rm) }
    };
    proof {
        if d >= 0 {
            lemma_fundamental_div_mod(di, 1_000_000_000);
            lemma_mod_pos_bound(di, 1_000_000_000);
        }
        lemma_fundamental_div_mod_converse(di, 1_000_000_000, secs as int, nanos as int);
        assert(-10_000_000_000_000_000 <= secs <= 10_000_000_000_000_000);
        lemma_trunc_div_bound(secs as int, k as int);
    }
    let secs_q = trunc_div_exec(secs, k);
    proof {
        assert(-10_000_000_000_000_000 * 2147483648 <= secs_q * k <= 10_000_000_000_000_000 * 2147483648) by (nonlinear_arith)
            requires
                -10_000_000_000_000_000 <= secs_q <= 10_000_000_000_000_000,
                -2147483648 <= k <= 2147483647;
    }
    let carry = secs - secs_q * k;
    proof {
        lemma_trunc_div_bound(carry * 1_000_000_000, k as int);
        lemma_trunc_div_bound(nanos as int, k as int);
    }
    let extra = trunc_div_exec(carry * 1_000_000_000, k);
    let part = trunc_div_exec(nanos, k);
    secs_q * 1_000_000_000 + part + extra
}

fn detour_exec(g: &RouteGraph, s: RouteSegment, path: &Vec<usize>) -> (r: Vec<RouteSegment>)
    requires
        route_ok(seq![s]),
        (path@.len() as i32) != 0,
    ensures
        r@ == detour(*g, s, path@),
{
    let n = path.len();
    let k32: i32 = n as i32;
    let k: i128 = k32 as i128;
    let duration = match s.duration {
        Some(d) => {
            proof {
                assert(crate::route::segment_ok(seq![s][0]));
            }
            Some(span_div_exec(d, k))
        },
        None => None,
    };
    let mut out: Vec<RouteSegment> = Vec::new();
    let mut i: usize = 0;
    while i < n
        invariant
            n == path@.len(),
            i <= n,
            duration == (match s.duration {
                Some(d) => Some(span_div(d as int, (n as i32) as int) as i128),
                None => None,
            }),
            out@.len() == i,
            forall|j: int| 0 <= j < i ==> #[trigger] out@[j] == detour_segment(*g, s, path@, j),
        decreases n - i,
    {
        let e = path[i];
        let cap: usize = if e < g.edges.len() && g.edges[e].tracks.len() > 0 { g.edges[e].tracks.len() - 1 } else { 0 };
        out.push(RouteSegment {
            edge_index: e,
            track_index: if s.track_index < cap { s.track_index } else { cap },
            origin_platform: if i == 0 { s.origin_platform } else { 0 },
            destination_platform: if i == n - 1 { s.destination_platform } else { 0 },
            duration,
            wait_time: if i == 0 { s.wait_time } else { 0 },
        });
        i = i + 1;
    }
    proof {
        assert(out@ =~= detour(*g, s, path@));
    }
    out
}

/// Replace every segment of `route` over `deleted` by its detour along `path`.
fn reroute_along(g: &RouteGraph, route: &mut Vec<RouteSegment>, deleted: usize, path: &Vec<usize>)
    requires
        route_ok(old(route)@),
        (path@.len() as i32) != 0,
    ensures
        final(route)@ == rerouted(*g, old(route)@, deleted, path@, old(route)@.len() as int),
{
    let ghost orig = route@;
    let mut out: Vec<RouteSegment> = Vec::new();
    let mut i: usize = 0;
    while i < route.len()
        invariant
            route@ == orig,
            route_ok(orig),
            (path@.len() as i32) != 0,
            i <= orig.len(),
            out@ == rerouted(*g, orig, deleted, path@, i as int),
        decreases orig.len() - i,
    {
        let s = route[i];
        if s.edge_index == deleted {
            proof {
                assert(crate::route::segment_ok(orig[i as int]));
                assert(route_ok(seq![s]));
            }
            let d = detour_exec(g, s, path);
            let mut k: usize = 0;
            let ghost before = out@;
            while k < d.len()
                invariant
                    k <= d@.len(),
                    out@ == before + d@.take(k as int),
                decreases d@.len() - k,
            {
                out.push(d[k]);
                proof {
                    assert(d@.take(k + 1) =~= d@.take(k as int).push(d@[k as int]));
                }
                k = k + 1;
            }
            proof {
                assert(d@.take(d@.len() as int) =~= d@);
            }
        } else {
            out.push(s);
        }
        i = i + 1;
    }
    *route = out;
}

/// Reroute one route around a deleted segment (see `reroute_outcome`).
fn reroute_single_direction(route: &mut Vec<RouteSegment>, deleted_edge: usize, from_node: usize, to_node: usize, graph: &RouteGraph) -> (r: bool)
    requires
        graph_wf(*graph),
        route_ok(old(route)@),
        detour_divisor_ok(*graph, from_node, to_node),
    ensures
        reroute_outcome(*graph, old(route)@, final(route)@, r, deleted_edge, from_node, to_node),
{
    if !route_uses_exec(route, deleted_edge) {
        return false;
    }
    match graph.find_path_between_nodes(from_node, to_node) {
        None => false,
        Some(path) => {
            proof {
                let nodes = choose|nodes: Seq<usize>| route_between(*graph, from_node, to_node, path@, nodes);
                assert(path@.len() > 0);
                assert(is_route_between(*graph, from_node, to_node, path@));
            }
            let ghost before = route@;
            reroute_along(graph, route, deleted_edge, &path);
            proof {
                assert(is_route_between(*graph, from_node, to_node, path@));
            }
            true
        },
    }
}

impl LineRoutes {
    /// Reroute both routes around a deleted segment, which ran from
    /// `from_node` to `to_node` (see `reroute_outcome`; the return route is
    /// rerouted by a route found the same way). `graph` is the network
    /// without the segment. A detour's running times are divided by its
    /// number of segments taken as an `i32`, which must not be zero (see
    /// `detour_divisor_ok`). Returns whether either route changed.
    pub fn reroute_deleted_edge(&mut self, deleted_edge: usize, from_node: usize, to_node: usize, graph: &RouteGraph) -> (r: bool)
        requires
            graph_wf(*graph),
            route_ok(old(self).forward_route@),
            detour_divisor_ok(*graph, from_node, to_node),
            route_ok(old(self).return_route@),
        ensures
            reroute_outcome(
                *graph,
                old(self).forward_route@,
                final(self).forward_route@,
                reroutes(*graph, old(self).forward_route@, deleted_edge, from_node, to_node),
                deleted_edge,
                from_node,
                to_node,
            ),
            reroute_outcome(
                *graph,
                old(self).return_route@,
                final(self).return_route@,
                reroutes(*graph, old(self).return_route@, deleted_edge, from_node, to_node),
                deleted_edge,
                from_node,
                to_node,
            ),
            r == (reroutes(*graph, old(self).forward_route@, deleted_edge, from_node, to_node)
                || reroutes(*graph, old(self).return_route@, deleted_edge, from_node, to_node)),
            final(self).sync_routes == old(self).sync_routes,
            final(self).first_stop_wait_time == old(self).first_stop_wait_time,
    {
        let forward_changed = reroute_single_direction(&mut self.forward_route, deleted_edge, from_node, to_node, graph);
        let return_changed = reroute_single_direction(&mut self.return_route, deleted_edge, from_node, to_node, graph);
        forward_changed || return_changed
    }
}

} // verus!
