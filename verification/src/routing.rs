//! Finding a route through the track network: a breadth-first search over
//! (node, edge arrived by) states that uses each track segment only in a
//! direction one of its tracks allows and obeys the routing rules of the
//! junctions it passes.

use vstd::prelude::*;
use crate::junction::{Junction, RoutingRule, routing_allowed, allowed_after};
use crate::track::{Track, TrackDirection, TrackHandedness, direction_allows, allows};
use crate::route::RouteSegment;
use crate::line::RouteDirection;
use crate::text::{decimal_spec, push_decimal, str_eq};

verus! {

/// A track segment between two nodes of the network, as routing reads it.
#[derive(Debug, Clone)]
pub struct GraphEdge {
    pub source: usize,
    pub target: usize,
    pub tracks: Vec<Track>,
    /// Platform used by default when arriving at the source.
    pub default_platform_source: Option<usize>,
    /// Platform used by default when arriving at the target.
    pub default_platform_target: Option<usize>,
}

/// The track network: nodes `0..node_count`, the segments by index, and the
/// routing rules of each node that is a junction.
#[derive(Debug, Clone)]
pub struct RouteGraph {
    pub node_count: usize,
    pub edges: Vec<GraphEdge>,
    pub junctions: Vec<Option<Junction>>,
}

/// A search state: a node and the segment the route arrived by (none at the start).
pub type RouteState = (usize, Option<usize>);

/// Every segment joins nodes of the network and every node has its junction entry.
pub open spec fn graph_wf(g: RouteGraph) -> bool {
    &&& g.junctions@.len() == g.node_count
    &&& forall|e: int| 0 <= e < g.edges@.len() ==> (#[trigger] g.edges@[e]).source < g.node_count
        && g.edges@[e].target < g.node_count
}

/// Some track of the segment may be used in the given direction.
pub open spec fn usable(e: GraphEdge, forward: bool) -> bool {
    exists|k: int| 0 <= k < e.tracks@.len() && direction_allows((#[trigger] e.tracks@[k]).direction, forward)
}

/// Leaving `node`, reached by `incoming`, by segment `out` is allowed: always
/// away from the start or outside junctions, else as the junction's rules say.
pub open spec fn junction_ok(g: RouteGraph, node: usize, incoming: Option<usize>, out: usize) -> bool {
    match g.junctions@[node as int] {
        None => true,
        Some(j) => match incoming {
            None => true,
            Some(inc) => routing_allowed(j.routing_rules@, inc, out),
        },
    }
}

/// From state `s`, segment `e` may be taken to node `n`: forward from its
/// source to its target, or backward from its target to its source, on a
/// track that allows that direction, and with the junction's consent.
pub open spec fn moves_to(g: RouteGraph, s: RouteState, e: usize, n: usize) -> bool {
    &&& e < g.edges@.len()
    &&& junction_ok(g, s.0, s.1, e)
    &&& {
        ||| g.edges@[e as int].source == s.0 && g.edges@[e as int].target == n && usable(g.edges@[e as int], true)
        ||| g.edges@[e as int].target == s.0 && g.edges@[e as int].source == n && usable(g.edges@[e as int], false)
    }
}

/// The state reached after the first `i` moves of a route from `s`.
pub open spec fn state_after(s: RouteState, path: Seq<usize>, nodes: Seq<usize>, i: int) -> RouteState {
    if i <= 0 { s } else { (nodes[i - 1], Some(path[i - 1])) }
}

/// `path` (the segments) and `nodes` (the node reached by each) form a route
/// from state `s`.
pub open spec fn is_route(g: RouteGraph, s: RouteState, path: Seq<usize>, nodes: Seq<usize>) -> bool {
    &&& path.len() == nodes.len()
    &&& forall|i: int| 0 <= i < path.len() ==> #[trigger] moves_to(g, state_after(s, path, nodes, i), path[i], nodes[i])
}

/// A route from node `from` that ends at node `to`.
pub open spec fn route_between(g: RouteGraph, from: usize, to: usize, path: Seq<usize>, nodes: Seq<usize>) -> bool {
    &&& path.len() > 0
    &&& is_route(g, (from, None), path, nodes)
    &&& nodes.last() == to
}

/// `path` is a route from `from` to `to` (through some nodes).
pub open spec fn is_route_between(g: RouteGraph, from: usize, to: usize, path: Seq<usize>) -> bool {
    exists|nodes: Seq<usize>| route_between(g, from, to, path, nodes)
}

/// Whether some track of the segment allows the direction.
fn any_track_allows(tracks: &Vec<Track>, forward: bool) -> (r: bool)
    ensures
        r == exists|k: int| 0 <= k < tracks@.len() && direction_allows((#[trigger] tracks@[k]).direction, forward),
{
    let mut k: usize = 0;
    while k < tracks.len()
        invariant
            k <= tracks@.len(),
            forall|q: int| 0 <= q < k ==> !direction_allows((#[trigger] tracks@[q]).direction, forward),
        decreases tracks.len() - k,
    {
        if allows(tracks[k].direction, forward) {
            return true;
        }
        k = k + 1;
    }
    false
}

impl RouteGraph {
    /// Whether routing through `node` from `incoming` onto `out` is allowed.
    pub fn is_junction_routing_allowed(&self, node: usize, incoming: Option<usize>, out: usize) -> (r: bool)
        requires
            node < self.junctions@.len(),
        ensures
            r == junction_ok(*self, node, incoming, out),
    {
        match &self.junctions[node] {
            None => true,
            Some(j) => match incoming {
                None => true,
                Some(inc) => j.is_routing_allowed(inc, out),
            },
        }
    }
}

/// Number of values a state's arrival segment can take (none, or a segment).
pub open spec fn arrivals(g: RouteGraph) -> int {
    g.edges@.len() as int + 1
}

/// Code of how a state was arrived at: 0 at the start, else the segment plus one.
pub open spec fn arrival_code(inc: Option<usize>) -> int {
    match inc {
        None => 0,
        Some(e) => e + 1,
    }
}

/// A state of the network: an existing node and, if any, an existing segment.
pub open spec fn valid_state(g: RouteGraph, s: RouteState) -> bool {
    &&& s.0 < g.node_count
    &&& (s.1 matches Some(e) ==> e < g.edges@.len())
}

/// Position of a state in the search tables.
pub open spec fn state_code(g: RouteGraph, s: RouteState) -> int {
    s.0 * arrivals(g) + arrival_code(s.1)
}

proof fn lemma_code_bounds(n: int, c: int, nn: int, k: int)
    requires
        0 <= n < nn,
        0 <= c < k,
    ensures
        0 <= n * k + c < nn * k,
{
    assert(n * k + c < nn * k) by (nonlinear_arith)
        requires 0 <= n < nn, 0 <= c < k;
    assert(0 <= n * k) by (nonlinear_arith)
        requires 0 <= n, 0 <= k;
}

proof fn lemma_code_injective(n1: int, c1: int, n2: int, c2: int, k: int)
    requires
        0 <= n1,
        0 <= n2,
        0 <= c1 < k,
        0 <= c2 < k,
        n1 * k + c1 == n2 * k + c2,
    ensures
        n1 == n2,
        c1 == c2,
{
    assert(n1 == n2) by (nonlinear_arith)
        requires 0 <= n1, 0 <= n2, 0 <= c1 < k, 0 <= c2 < k, n1 * k + c1 == n2 * k + c2;
}

proof fn lemma_state_code(g: RouteGraph, s1: RouteState, s2: RouteState)
    requires
        valid_state(g, s1),
        valid_state(g, s2),
    ensures
        0 <= state_code(g, s1) < g.node_count * arrivals(g),
        state_code(g, s1) == state_code(g, s2) ==> s1 == s2,
{
    lemma_code_bounds(s1.0 as int, arrival_code(s1.1), g.node_count as int, arrivals(g));
    if state_code(g, s1) == state_code(g, s2) {
        lemma_code_injective(s1.0 as int, arrival_code(s1.1), s2.0 as int, arrival_code(s2.1), arrivals(g));
        match s1.1 {
            Some(a) => match s2.1 {
                Some(b) => assert(a == b),
                None => {},
            },
            None => {},
        }
    }
}

pub(crate) proof fn lemma_distinct_bounded(codes: Seq<int>, b: int)
    requires
        0 <= b,
        codes.no_duplicates(),
        forall|i: int| 0 <= i < codes.len() ==> 0 <= #[trigger] codes[i] < b,
    ensures
        codes.len() <= b,
{
    codes.unique_seq_to_set();
    vstd::set_lib::lemma_int_range(0, b);
    assert(codes.to_set().subset_of(vstd::set_lib::set_int_range(0, b))) by {
        assert forall|x: int| codes.to_set().contains(x) implies vstd::set_lib::set_int_range(0, b).contains(x) by {
            let i = choose|i: int| 0 <= i < codes.len() && codes[i] == x;
        }
    }
    vstd::set_lib::lemma_len_subset(codes.to_set(), vstd::set_lib::set_int_range(0, b));
}

/// A route extended by one more move is a route.
proof fn lemma_route_push(g: RouteGraph, s: RouteState, path: Seq<usize>, nodes: Seq<usize>, e: usize, n: usize)
    requires
        is_route(g, s, path, nodes),
        moves_to(g, state_after(s, path, nodes, path.len() as int), e, n),
    ensures
        is_route(g, s, path.push(e), nodes.push(n)),
        state_after(s, path.push(e), nodes.push(n), path.len() as int + 1) == (n, Some(e)),
{
    let p2 = path.push(e);
    let n2 = nodes.push(n);
    assert forall|i: int| 0 <= i < p2.len() implies #[trigger] moves_to(g, state_after(s, p2, n2, i), p2[i], n2[i]) by {
        assert(state_after(s, p2, n2, i) == state_after(s, path, nodes, i));
        if i < path.len() {
            assert(moves_to(g, state_after(s, path, nodes, i), path[i], nodes[i]));
        }
    }
}

/// The states in the queue are states of the network and were reached.
pub open spec fn queue_states_ok(g: RouteGraph, queue: Seq<RouteState>, visited: Seq<bool>) -> bool {
    forall|q: int| 0 <= q < queue.len() ==> valid_state(g, #[trigger] queue[q]) && visited[state_code(g, queue[q])]
}

/// Every reached state is in the queue.
pub open spec fn visited_in_queue(g: RouteGraph, queue: Seq<RouteState>, visited: Seq<bool>) -> bool {
    forall|c: int| 0 <= c < visited.len() && #[trigger] visited[c] ==> exists|q: int| 0 <= q < queue.len() && state_code(g, #[trigger] queue[q]) == c
}

/// No state is in the queue twice.
pub open spec fn queue_distinct(g: RouteGraph, queue: Seq<RouteState>) -> bool {
    forall|q1: int, q2: int| 0 <= q1 < q2 < queue.len() ==> state_code(g, #[trigger] queue[q1]) != state_code(g, #[trigger] queue[q2])
}

/// Every move out of an expanded state (one before `head`) leads to a
/// reached state other than the destination.
pub open spec fn expanded_closed(g: RouteGraph, to: usize, queue: Seq<RouteState>, head: int, visited: Seq<bool>) -> bool {
    forall|q: int, e: usize, n: usize| 0 <= q < head && #[trigger] moves_to(g, queue[q], e, n) ==> n != to
        && valid_state(g, (n, Some(e))) && visited[state_code(g, (n, Some(e)))]
}

/// The route recorded for a reached state leads to it from the start.
pub open spec fn route_reaches(g: RouteGraph, from: usize, rt: (Seq<usize>, Seq<usize>), s: RouteState) -> bool {
    &&& is_route(g, (from, None), rt.0, rt.1)
    &&& state_after((from, None), rt.0, rt.1, rt.0.len() as int) == s
}

/// Each queued state has a recorded route to it.
pub open spec fn routes_ok(g: RouteGraph, from: usize, queue: Seq<RouteState>, routes: Map<int, (Seq<usize>, Seq<usize>)>) -> bool {
    forall|q: int| 0 <= q < queue.len() ==> routes.contains_key(state_code(g, #[trigger] queue[q]))
        && route_reaches(g, from, routes[state_code(g, queue[q])], queue[q])
}

/// Each queued state but the start was reached from a queued state, and its
/// route is that state's route and one more move.
pub open spec fn parents_ok(
    g: RouteGraph,
    queue: Seq<RouteState>,
    came_from: Seq<(RouteState, usize)>,
    routes: Map<int, (Seq<usize>, Seq<usize>)>,
) -> bool {
    forall|q: int| 0 < q < queue.len() ==> {
        let cf = #[trigger] came_from[state_code(g, queue[q])];
        &&& exists|q2: int| 0 <= q2 < queue.len() && queue[q2] == cf.0
        &&& routes[state_code(g, queue[q])] == (routes[state_code(g, cf.0)].0.push(cf.1), routes[state_code(g, cf.0)].1.push(queue[q].0))
    }
}

/// The search tables: which states were reached, how, and in what order.
pub open spec fn search_ok(
    g: RouteGraph,
    from: usize,
    to: usize,
    queue: Seq<RouteState>,
    head: int,
    visited: Seq<bool>,
    came_from: Seq<(RouteState, usize)>,
    routes: Map<int, (Seq<usize>, Seq<usize>)>,
) -> bool {
    let nk = g.node_count * arrivals(g);
    let start = (from, None::<usize>);
    &&& visited.len() == nk
    &&& came_from.len() == nk
    &&& 0 <= head <= queue.len()
    &&& queue.len() > 0
    &&& queue[0] == start
    &&& routes.contains_key(state_code(g, start))
    &&& routes[state_code(g, start)] == (Seq::<usize>::empty(), Seq::<usize>::empty())
    &&& queue_states_ok(g, queue, visited)
    &&& visited_in_queue(g, queue, visited)
    &&& queue_distinct(g, queue)
    &&& expanded_closed(g, to, queue, head, visited)
    &&& routes_ok(g, from, queue, routes)
    &&& parents_ok(g, queue, came_from, routes)
}

/// Length of the route recorded for a state.
pub open spec fn depth(g: RouteGraph, routes: Map<int, (Seq<usize>, Seq<usize>)>, s: RouteState) -> int {
    routes[state_code(g, s)].0.len() as int
}

/// The search goes breadth first: recorded route lengths never shrink along
/// the queue and exceed that of the state being expanded by at most one, and
/// every move out of an expanded state leads to a state whose recorded route
/// is at most one move longer.
pub open spec fn bfs_layers(g: RouteGraph, queue: Seq<RouteState>, head: int, routes: Map<int, (Seq<usize>, Seq<usize>)>) -> bool {
    &&& forall|q1: int, q2: int| 0 <= q1 <= q2 < queue.len() ==> depth(g, routes, #[trigger] queue[q1]) <= depth(g, routes, #[trigger] queue[q2])
    &&& head < queue.len() ==> forall|q: int| 0 <= q < queue.len() ==> depth(g, routes, #[trigger] queue[q]) <= depth(g, routes, queue[head]) + 1
    &&& forall|q: int, e: usize, n: usize| 0 <= q < head && #[trigger] moves_to(g, queue[q], e, n)
        ==> depth(g, routes, (n, Some(e))) <= depth(g, routes, queue[q]) + 1
    &&& forall|q: int| 0 <= q < queue.len() ==> depth(g, routes, #[trigger] queue[q]) <= q
}

/// In a finished search, every state a route reaches before it first arrives
/// at `to` was reached by the search.
proof fn lemma_route_states_searched(
    g: RouteGraph,
    from: usize,
    to: usize,
    queue: Seq<RouteState>,
    visited: Seq<bool>,
    came_from: Seq<(RouteState, usize)>,
    routes: Map<int, (Seq<usize>, Seq<usize>)>,
    path: Seq<usize>,
    nodes: Seq<usize>,
    j: int,
)
    requires
        search_ok(g, from, to, queue, queue.len() as int, visited, came_from, routes),
        is_route(g, (from, None), path, nodes),
        0 <= j <= path.len(),
        forall|k: int| 0 <= k < j ==> nodes[k] != to,
    ensures
        exists|q: int| 0 <= q < queue.len() && queue[q] == state_after((from, None), path, nodes, j),
    decreases j,
{
    let start = (from, None::<usize>);
    if j == 0 {
        assert(queue[0] == state_after(start, path, nodes, 0));
    } else {
        lemma_route_states_searched(g, from, to, queue, visited, came_from, routes, path, nodes, j - 1);
        let q = choose|q: int| 0 <= q < queue.len() && queue[q] == state_after(start, path, nodes, j - 1);
        assert(moves_to(g, state_after(start, path, nodes, j - 1), path[j - 1], nodes[j - 1]));
        assert(moves_to(g, queue[q], path[j - 1], nodes[j - 1]));
        let ns = (nodes[j - 1], Some(path[j - 1]));
        assert(valid_state(g, ns) && visited[state_code(g, ns)]);
        lemma_state_code(g, ns, ns);
        let q2 = choose|q2: int| 0 <= q2 < queue.len() && state_code(g, #[trigger] queue[q2]) == state_code(g, ns);
        assert(valid_state(g, queue[q2]));
        lemma_state_code(g, queue[q2], ns);
        assert(state_after(start, path, nodes, j) == ns);
    }
}

proof fn first_occurrence(ns: Seq<usize>, x: usize, j: int) -> (i: int)
    requires
        0 <= j < ns.len(),
        ns[ns.len() - 1] == x,
        forall|k: int| 0 <= k < j ==> ns[k] != x,
    ensures
        j <= i < ns.len(),
        ns[i] == x,
        forall|k: int| 0 <= k < i ==> ns[k] != x,
    decreases ns.len() - j,
{
    if ns[j] == x {
        j
    } else {
        first_occurrence(ns, x, j + 1)
    }
}

/// In a breadth-first search expanding the state at `head`, every state a
/// route reaches in `j` moves, no more than the recorded route to that state
/// and without arriving at `to` on the way, was reached by a recorded route of
/// at most `j` moves.
proof fn lemma_reached_within(
    g: RouteGraph,
    from: usize,
    to: usize,
    queue: Seq<RouteState>,
    head: int,
    visited: Seq<bool>,
    came_from: Seq<(RouteState, usize)>,
    routes: Map<int, (Seq<usize>, Seq<usize>)>,
    path: Seq<usize>,
    nodes: Seq<usize>,
    j: int,
)
    requires
        search_ok(g, from, to, queue, head, visited, came_from, routes),
        bfs_layers(g, queue, head, routes),
        head < queue.len(),
        is_route(g, (from, None), path, nodes),
        0 <= j <= path.len(),
        j <= depth(g, routes, queue[head]),
        forall|k: int| 0 <= k < j ==> nodes[k] != to,
    ensures
        exists|q: int| 0 <= q < queue.len() && queue[q] == state_after((from, None), path, nodes, j)
            && depth(g, routes, queue[q]) <= j,
    decreases j,
{
    let start = (from, None::<usize>);
    if j == 0 {
        assert(queue[0] == state_after(start, path, nodes, 0));
        assert(depth(g, routes, queue[0]) == 0);
    } else {
        lemma_reached_within(g, from, to, queue, head, visited, came_from, routes, path, nodes, j - 1);
        let q = choose|q: int| 0 <= q < queue.len() && queue[q] == state_after(start, path, nodes, j - 1)
            && depth(g, routes, queue[q]) <= j - 1;
        if q >= head {
            assert(depth(g, routes, queue[head]) <= depth(g, routes, queue[q]));
        }
        assert(q < head);
        assert(moves_to(g, state_after(start, path, nodes, j - 1), path[j - 1], nodes[j - 1]));
        assert(moves_to(g, queue[q], path[j - 1], nodes[j - 1]));
        let ns = (nodes[j - 1], Some(path[j - 1]));
        assert(valid_state(g, ns) && visited[state_code(g, ns)]);
        assert(depth(g, routes, ns) <= depth(g, routes, queue[q]) + 1);
        lemma_state_code(g, ns, ns);
        let q2 = choose|q2: int| 0 <= q2 < queue.len() && state_code(g, #[trigger] queue[q2]) == state_code(g, ns);
        assert(valid_state(g, queue[q2]));
        lemma_state_code(g, queue[q2], ns);
        assert(state_after(start, path, nodes, j) == ns);
        assert(queue[q2] == state_after(start, path, nodes, j) && depth(g, routes, queue[q2]) <= j);
    }
}

/// When the search first finds a move to `to` out of the state at `head`,
/// no route from `from` to `to` is shorter than the recorded route to that
/// state followed by the move.
proof fn lemma_found_is_shortest(
    g: RouteGraph,
    from: usize,
    to: usize,
    queue: Seq<RouteState>,
    head: int,
    visited: Seq<bool>,
    came_from: Seq<(RouteState, usize)>,
    routes: Map<int, (Seq<usize>, Seq<usize>)>,
)
    requires
        search_ok(g, from, to, queue, head, visited, came_from, routes),
        bfs_layers(g, queue, head, routes),
        head < queue.len(),
    ensures
        forall|p: Seq<usize>| #[trigger] is_route_between(g, from, to, p) ==> depth(g, routes, queue[head]) + 1 <= p.len(),
{
    assert forall|p: Seq<usize>| #[trigger] is_route_between(g, from, to, p) implies depth(g, routes, queue[head]) + 1 <= p.len() by {
        let ns = choose|ns: Seq<usize>| route_between(g, from, to, p, ns);
        let i = first_occurrence(ns, to, 0);
        if i < depth(g, routes, queue[head]) {
            lemma_reached_within(g, from, to, queue, head, visited, came_from, routes, p, ns, i);
            let q = choose|q: int| 0 <= q < queue.len() && queue[q] == state_after((from, None), p, ns, i)
                && depth(g, routes, queue[q]) <= i;
            if q >= head {
                assert(depth(g, routes, queue[head]) <= depth(g, routes, queue[q]));
            }
            assert(moves_to(g, state_after((from, None), p, ns, i), p[i], ns[i]));
            assert(moves_to(g, queue[q], p[i], ns[i]));
        }
    }
}

/// A finished search that never arrived at `to` leaves no route to it.
proof fn lemma_no_route_after_search(
    g: RouteGraph,
    from: usize,
    to: usize,
    queue: Seq<RouteState>,
    visited: Seq<bool>,
    came_from: Seq<(RouteState, usize)>,
    routes: Map<int, (Seq<usize>, Seq<usize>)>,
)
    requires
        search_ok(g, from, to, queue, queue.len() as int, visited, came_from, routes),
    ensures
        forall|p: Seq<usize>, ns: Seq<usize>| !route_between(g, from, to, p, ns),
{
    assert forall|p: Seq<usize>, ns: Seq<usize>| !route_between(g, from, to, p, ns) by {
        if route_between(g, from, to, p, ns) {
            let i = first_occurrence(ns, to, 0);
            lemma_route_states_searched(g, from, to, queue, visited, came_from, routes, p, ns, i);
            let q = choose|q: int| 0 <= q < queue.len() && queue[q] == state_after((from, None), p, ns, i);
            assert(moves_to(g, state_after((from, None), p, ns, i), p[i], ns[i]));
            assert(moves_to(g, queue[q], p[i], ns[i]));
        }
    }
}

/// A table of the search, indexed by state code: the entries set so far,
/// every other entry holding the default.
pub struct SearchTable<T> {
    entries: std::collections::HashMap<u128, T>,
    default: T,
    len: Ghost<nat>,
}

impl<T: Copy> View for SearchTable<T> {
    type V = Seq<T>;

    open spec fn view(&self) -> Seq<T> {
        self.entries_view()
    }
}

impl<T: Copy> SearchTable<T> {
    /// The table as a sequence of `len` entries.
    pub closed spec fn entries_view(&self) -> Seq<T> {
        Seq::new(self.len@, |i: int| if i <= u128::MAX && self.entries@.contains_key(i as u128) { self.entries@[i as u128] } else { self.default })
    }

    /// A table of `len` default entries.
    fn new(len: Ghost<nat>, default: T) -> (r: Self)
        ensures
            r.entries_view() == Seq::new(len@, |i: int| default),
    {
        broadcast use vstd::std_specs::hash::group_hash_axioms;
        let r = SearchTable { entries: std::collections::HashMap::new(), default, len };
        assert(r.entries_view() =~= Seq::new(len@, |i: int| default));
        r
    }

    /// Entry `c`.
    fn get(&self, c: u128) -> (r: T)
        requires
            c < self.entries_view().len(),
        ensures
            r == self.entries_view()[c as int],
    {
        broadcast use vstd::std_specs::hash::group_hash_axioms;
        match self.entries.get(&c) {
            Some(v) => *v,
            None => self.default,
        }
    }

    /// Set entry `c` to `v`.
    fn set(&mut self, c: u128, v: T)
        requires
            c < old(self).entries_view().len(),
        ensures
            final(self).entries_view() == old(self).entries_view().update(c as int, v),
    {
        broadcast use vstd::std_specs::hash::group_hash_axioms;
        self.entries.insert(c, v);
        assert(self.entries_view() =~= old(self).entries_view().update(c as int, v));
    }
}

impl RouteGraph {
    /// Position of a state in the search tables.
    fn code(&self, st: RouteState) -> (r: u128)
        requires
            valid_state(*self, st),
        ensures
            r == state_code(*self, st),
    {
        let k: u128 = self.edges.len() as u128 + 1;
        let c: u128 = match st.1 {
            None => 0,
            Some(e) => e as u128 + 1,
        };
        let n: u128 = st.0 as u128;
        proof {
            assert(usize::MAX <= 0xffff_ffff_ffff_ffff);
            assert(n * k + c <= 0xffff_ffff_ffff_ffff * 0x1_0000_0000_0000_0000 + 0xffff_ffff_ffff_ffff) by (nonlinear_arith)
                requires
                    n <= 0xffff_ffff_ffff_ffff,
                    1 <= k <= 0x1_0000_0000_0000_0000,
                    c <= 0xffff_ffff_ffff_ffff;
        }
        n * k + c
    }

    /// Record that state `(n, Some(e))` was reached from the state at `head`,
    /// unless it was reached before.
    fn enqueue(
        &self,
        from: usize,
        to: usize,
        head: usize,
        n: usize,
        e: usize,
        queue: &mut Vec<RouteState>,
        visited: &mut SearchTable<bool>,
        came_from: &mut SearchTable<(RouteState, usize)>,
        Ghost(routes): Ghost<Map<int, (Seq<usize>, Seq<usize>)>>,
    ) -> (r: Ghost<Map<int, (Seq<usize>, Seq<usize>)>>)
        requires
            graph_wf(*self),
            search_ok(*self, from, to, old(queue)@, head as int, old(visited)@, old(came_from)@, routes),
            head < old(queue)@.len(),
            old(queue)@.len() <= self.node_count * arrivals(*self),
            moves_to(*self, old(queue)@[head as int], e, n),
            n != to,
            bfs_layers(*self, old(queue)@, head as int, routes),
        ensures
            search_ok(*self, from, to, final(queue)@, head as int, final(visited)@, final(came_from)@, r@),
            bfs_layers(*self, final(queue)@, head as int, r@),
            depth(*self, r@, (n, Some(e))) <= depth(*self, r@, final(queue)@[head as int]) + 1,
            forall|cc: int| 0 <= cc < old(visited)@.len() && old(visited)@[cc] ==> #[trigger] r@[cc] == routes[cc],
            final(queue)@.len() <= self.node_count * arrivals(*self),
            final(queue)@.len() >= old(queue)@.len(),
            forall|q: int| 0 <= q < old(queue)@.len() ==> #[trigger] final(queue)@[q] == old(queue)@[q],
            forall|c: int| 0 <= c < old(visited)@.len() && old(visited)@[c] ==> #[trigger] final(visited)@[c],
            valid_state(*self, (n, Some(e))),
            final(visited)@[state_code(*self, (n, Some(e)))],
    {
        let ghost g = *self;
        let ghost start = (from, None::<usize>);
        let ghost nk = self.node_count * arrivals(*self);
        let ns: RouteState = (n, Some(e));
        assert(valid_state(g, ns));
        let c = self.code(ns);
        proof {
            lemma_state_code(g, ns, ns);
        }
        if visited.get(c) {
            proof {
                let qv = choose|q: int| 0 <= q < queue@.len() && state_code(g, #[trigger] queue@[q]) == c as int;
                lemma_state_code(g, queue@[qv], ns);
                assert(depth(g, routes, queue@[qv]) <= depth(g, routes, queue@[head as int]) + 1);
            }
            return Ghost(routes);
        }
        let ghost q0 = queue@;
        let ghost v0 = visited@;
        let ghost cf0 = came_from@;
        let cur = queue[head];
        let ghost rt = routes[state_code(g, cur)];
        proof {
            assert(routes.contains_key(state_code(g, queue@[head as int])));
            assert(route_reaches(g, from, routes[state_code(g, queue@[head as int])], queue@[head as int]));
            lemma_route_push(g, start, rt.0, rt.1, e, n);
            assert forall|q: int| 0 <= q < q0.len() implies state_code(g, #[trigger] q0[q]) != c by {
                lemma_state_code(g, q0[q], q0[q]);
                assert(v0[state_code(g, q0[q])]);
            }
        }
        let ghost nr = routes.insert(c as int, (rt.0.push(e), rt.1.push(n)));
        visited.set(c, true);
        came_from.set(c, (cur, e));
        queue.push(ns);
        proof {
            let q1 = queue@;
            let v1 = visited@;
            let cf1 = came_from@;
            assert(q1.len() == q0.len() + 1);
            assert forall|q: int| 0 <= q < q0.len() implies #[trigger] q1[q] == q0[q] by {}
            assert(q1[q0.len() as int] == ns);
            // codes of the queue stay distinct and bounded
            let codes = q1.map_values(|x: RouteState| state_code(g, x));
            assert forall|i: int| 0 <= i < codes.len() implies 0 <= #[trigger] codes[i] < nk by {
                lemma_state_code(g, q1[i], q1[i]);
            }
            assert(codes.no_duplicates()) by {
                assert forall|i: int, j: int| 0 <= i < codes.len() && 0 <= j < codes.len() && i != j
                    implies codes[i] != codes[j] by {
                    if i < q0.len() && j < q0.len() {
                        if i < j {
                            assert(state_code(g, q0[i]) != state_code(g, q0[j]));
                        } else {
                            assert(state_code(g, q0[j]) != state_code(g, q0[i]));
                        }
                    }
                }
            }
            lemma_distinct_bounded(codes, nk);
            // the tables after the step
            assert(state_code(g, start) != c as int) by {
                assert(state_code(g, q0[0]) != c);
            }
            assert(queue_states_ok(g, q1, v1)) by {
                assert forall|q: int| 0 <= q < q1.len() implies valid_state(g, #[trigger] q1[q]) && v1[state_code(g, q1[q])] by {
                    if q < q0.len() {
                        assert(q1[q] == q0[q]);
                        lemma_state_code(g, q0[q], q0[q]);
                        assert(v0[state_code(g, q0[q])]);
                        assert(state_code(g, q0[q]) != c);
                        assert(v1[state_code(g, q0[q])] == v0[state_code(g, q0[q])]);
                    } else {
                        assert(q1[q] == ns);
                    }
                }
            }
            assert(visited_in_queue(g, q1, v1)) by {
                assert forall|cc: int| 0 <= cc < v1.len() && #[trigger] v1[cc] implies exists|q: int| 0 <= q < q1.len() && state_code(g, #[trigger] q1[q]) == cc by {
                    if cc == c {
                        assert(state_code(g, q1[q0.len() as int]) == cc);
                    } else {
                        assert(v0[cc]);
                        let q = choose|q: int| 0 <= q < q0.len() && state_code(g, #[trigger] q0[q]) == cc;
                        assert(state_code(g, q1[q]) == cc);
                    }
                }
            }
            assert(queue_distinct(g, q1)) by {
                assert forall|i: int, j: int| 0 <= i < j < q1.len() implies state_code(g, #[trigger] q1[i]) != state_code(g, #[trigger] q1[j]) by {
                    assert(codes[i] != codes[j]);
                }
            }
            assert(expanded_closed(g, to, q1, head as int, v1)) by {
                assert forall|q: int, e2: usize, n2: usize| 0 <= q < head && #[trigger] moves_to(g, q1[q], e2, n2) implies n2 != to
                    && valid_state(g, (n2, Some(e2))) && v1[state_code(g, (n2, Some(e2)))] by {
                    assert(q1[q] == q0[q]);
                    assert(moves_to(g, q0[q], e2, n2));
                    lemma_state_code(g, (n2, Some(e2)), (n2, Some(e2)));
                }
            }
            assert(routes_ok(g, from, q1, nr)) by {
                assert forall|q: int| 0 <= q < q1.len() implies nr.contains_key(state_code(g, #[trigger] q1[q]))
                    && route_reaches(g, from, nr[state_code(g, q1[q])], q1[q]) by {
                    if q < q0.len() {
                        assert(q1[q] == q0[q]);
                        assert(state_code(g, q0[q]) != c);
                        assert(routes.contains_key(state_code(g, q0[q])) && route_reaches(g, from, routes[state_code(g, q0[q])], q0[q]));
                        assert(nr[state_code(g, q1[q])] == routes[state_code(g, q0[q])]);
                    } else {
                        assert(q1[q] == ns);
                        assert(nr[state_code(g, q1[q])] == (rt.0.push(e), rt.1.push(n)));
                    }
                }
            }
            assert(parents_ok(g, q1, cf1, nr)) by {
                assert forall|q: int| 0 < q < q1.len() implies {
                    let cf = #[trigger] cf1[state_code(g, q1[q])];
                    &&& exists|q2: int| 0 <= q2 < q1.len() && q1[q2] == cf.0
                    &&& nr[state_code(g, q1[q])] == (nr[state_code(g, cf.0)].0.push(cf.1), nr[state_code(g, cf.0)].1.push(q1[q].0))
                } by {
                    if q < q0.len() {
                        assert(q1[q] == q0[q]);
                        lemma_state_code(g, q0[q], q0[q]);
                        let cfo = cf0[state_code(g, q0[q])];
                        assert(state_code(g, q0[q]) != c);
                        assert(cf1[state_code(g, q0[q])] == cfo);
                        let q2 = choose|q2: int| 0 <= q2 < q0.len() && q0[q2] == cfo.0;
                        assert(q1[q2] == cfo.0);
                        assert(state_code(g, q0[q2]) != c);
                    } else {
                        assert(cf1[c as int] == (cur, e));
                        assert(q1[head as int] == cur);
                        assert(state_code(g, cur) != c);
                    }
                }
            }
            assert(nr.contains_key(state_code(g, start)));
            assert(nr[state_code(g, start)] == (Seq::<usize>::empty(), Seq::<usize>::empty()));
            assert(v1.len() == nk);
            assert(cf1.len() == nk);
            assert(q1[0] == start);
            assert(search_ok(g, from, to, q1, head as int, v1, cf1, nr));
            // recorded routes of reached states are kept; the new one is one move longer
            assert forall|cc: int| 0 <= cc < v0.len() && v0[cc] implies #[trigger] nr[cc] == routes[cc] by {
                assert(cc != c);
            }
            assert forall|q: int| 0 <= q < q0.len() implies depth(g, nr, #[trigger] q1[q]) == depth(g, routes, q0[q]) by {
                lemma_state_code(g, q0[q], q0[q]);
                assert(v0[state_code(g, q0[q])]);
                assert(state_code(g, q0[q]) != c);
            }
            assert(depth(g, nr, ns) == depth(g, routes, cur) + 1);
            assert(bfs_layers(g, q1, head as int, nr)) by {
                assert forall|a: int, b: int| 0 <= a <= b < q1.len() implies depth(g, nr, #[trigger] q1[a]) <= depth(g, nr, #[trigger] q1[b]) by {
                    if b < q0.len() {
                        assert(depth(g, routes, q0[a]) <= depth(g, routes, q0[b]));
                    } else if a < q0.len() {
                        assert(depth(g, routes, q0[a]) <= depth(g, routes, q0[head as int]) + 1);
                    }
                }
                assert forall|q: int| 0 <= q < q1.len() implies depth(g, nr, #[trigger] q1[q]) <= depth(g, nr, q1[head as int]) + 1 by {
                    if q < q0.len() {
                        assert(depth(g, routes, q0[q]) <= depth(g, routes, q0[head as int]) + 1);
                    }
                }
                assert forall|q: int| 0 <= q < q1.len() implies depth(g, nr, #[trigger] q1[q]) <= q by {
                    if q < q0.len() {
                        assert(depth(g, routes, q0[q]) <= q);
                    } else {
                        assert(depth(g, routes, q0[head as int]) <= head);
                    }
                }
                assert forall|q: int, e2: usize, n2: usize| 0 <= q < head && #[trigger] moves_to(g, q1[q], e2, n2)
                    implies depth(g, nr, (n2, Some(e2))) <= depth(g, nr, q1[q]) + 1 by {
                    assert(q1[q] == q0[q]);
                    assert(moves_to(g, q0[q], e2, n2));
                    lemma_state_code(g, (n2, Some(e2)), (n2, Some(e2)));
                    assert(v0[state_code(g, (n2, Some(e2)))]);
                    assert(depth(g, routes, (n2, Some(e2))) <= depth(g, routes, q0[q]) + 1);
                }
            }
        }
        Ghost(nr)
    }
}

impl RouteGraph {
    /// The route to the state at `head`, followed by segment `e` to `to`,
    /// read back through the recorded parents.
    fn reconstruct(
        &self,
        from: usize,
        to: usize,
        head: usize,
        e: usize,
        queue: &Vec<RouteState>,
        came_from: &SearchTable<(RouteState, usize)>,
        Ghost(visited): Ghost<Seq<bool>>,
        Ghost(routes): Ghost<Map<int, (Seq<usize>, Seq<usize>)>>,
    ) -> (r: Vec<usize>)
        requires
            graph_wf(*self),
            search_ok(*self, from, to, queue@, head as int, visited, came_from@, routes),
            head < queue@.len(),
            moves_to(*self, queue@[head as int], e, to),
        ensures
            exists|nodes: Seq<usize>| route_between(*self, from, to, r@, nodes),
            r@ == routes[state_code(*self, queue@[head as int])].0.push(e),
    {
        let ghost g = *self;
        let ghost start = (from, None::<usize>);
        let ghost target = routes[state_code(g, queue@[head as int])];
        proof {
            assert(routes.contains_key(state_code(g, queue@[head as int])) && route_reaches(g, from, target, queue@[head as int]));
        }
        let mut cur: RouteState = queue[head];
        let mut rev: Vec<usize> = Vec::new();
        let ghost mut suffix: Seq<usize> = Seq::empty();
        let ghost mut cq: int = head as int;
        while !(cur.0 == from && cur.1.is_none())
            invariant
                g == *self,
                start == (from, None::<usize>),
                target == routes[state_code(g, queue@[head as int])],
                head < queue@.len(),
                graph_wf(*self),
                search_ok(*self, from, to, queue@, head as int, visited, came_from@, routes),
                0 <= cq < queue@.len(),
                queue@[cq] == cur,
                routes[state_code(g, cur)].0 + suffix == target.0,
                rev@.len() == suffix.len(),
                forall|i: int| 0 <= i < rev@.len() ==> rev@[i] == suffix[suffix.len() - 1 - i],
            decreases routes[state_code(g, cur)].0.len(),
        {
            proof {
                assert(queue_states_ok(g, queue@, visited));
                assert(valid_state(g, queue@[cq]));
                assert(cq != 0);
                lemma_state_code(g, queue@[cq], queue@[cq]);
            }
            let cd = self.code(cur);
            let (p, ed) = came_from.get(cd);
            proof {
                let cf = came_from@[state_code(g, queue@[cq])];
                assert(cf == (p, ed));
                let q2 = choose|q2: int| 0 <= q2 < queue@.len() && queue@[q2] == cf.0;
                let old_suffix = suffix;
                suffix = seq![ed] + suffix;
                cq = q2;
                assert(routes[state_code(g, queue@[q2])].0 + suffix =~= routes[state_code(g, cur)].0 + old_suffix);
            }
            rev.push(ed);
            cur = p;
        }
        proof {
            assert(cq == 0) by {
                if cq != 0 {
                    assert(state_code(g, queue@[0]) != state_code(g, queue@[cq]));
                }
            }
            assert(suffix =~= target.0);
        }
        let mut path: Vec<usize> = Vec::new();
        let mut i: usize = rev.len();
        while i > 0
            invariant
                i <= rev@.len(),
                rev@.len() == suffix.len(),
                forall|k: int| 0 <= k < rev@.len() ==> rev@[k] == suffix[suffix.len() - 1 - k],
                path@ == suffix.take(rev@.len() - i),
            decreases i,
        {
            i = i - 1;
            path.push(rev[i]);
            proof {
                assert(path@ =~= suffix.take(rev@.len() - i));
            }
        }
        proof {
            assert(path@ =~= target.0);
            lemma_route_push(g, start, target.0, target.1, e, to);
            assert(route_between(g, from, to, path@.push(e), target.1.push(to)));
        }
        path.push(e);
        path
    }

    /// A shortest route (fewest segments) from `from` to `to` as the
    /// segments it takes, found by a breadth-first search over (node, segment
    /// arrived by) states: each segment is used only in a direction one of its
    /// tracks allows, and a junction is left only as its routing rules allow
    /// for the segment the route arrived by. `None` when `from` is `to` or no
    /// route exists.
    pub fn find_path_between_nodes(&self, from: usize, to: usize) -> (r: Option<Vec<usize>>)
        requires
            graph_wf(*self),
        ensures
            from == to ==> r is None,
            r matches Some(p) ==> is_route_between(*self, from, to, p@),
            r matches Some(p) ==> forall|p2: Seq<usize>| #[trigger] is_route_between(*self, from, to, p2) ==> p@.len() <= p2.len(),
            r matches Some(p) ==> p@.len() <= self.node_count * arrivals(*self),
            r is None && from != to ==> forall|p: Seq<usize>| !is_route_between(*self, from, to, p),
    {
        let ghost g = *self;
        if from == to {
            return None;
        }
        if from >= self.node_count {
            proof {
                assert forall|p: Seq<usize>, nodes: Seq<usize>| !route_between(g, from, to, p, nodes) by {
                    if route_between(g, from, to, p, nodes) {
                        assert(moves_to(g, state_after((from, None), p, nodes, 0), p[0], nodes[0]));
                    }
                }
            }
            return None;
        }
        proof {
            lemma_code_bounds(from as int, 0, self.node_count as int, arrivals(g));
        }
        proof {
            assert(arrivals(g) <= self.node_count * arrivals(g)) by (nonlinear_arith)
                requires self.node_count >= 1, arrivals(g) >= 1;
        }
        let ghost nk: int = self.node_count * arrivals(g);
        let mut visited: SearchTable<bool> = SearchTable::new(Ghost(nk as nat), false);
        let mut came_from: SearchTable<(RouteState, usize)> = SearchTable::new(Ghost(nk as nat), ((0, None), 0));
        let start: RouteState = (from, None);
        let sc = self.code(start);
        visited.set(sc, true);
        let mut queue: Vec<RouteState> = Vec::new();
        queue.push(start);
        let ghost mut routes: Map<int, (Seq<usize>, Seq<usize>)> = Map::empty().insert(sc as int, (Seq::<usize>::empty(), Seq::<usize>::empty()));
        proof {
            lemma_state_code(g, start, start);
            assert(queue_states_ok(g, queue@, visited@));
            assert(visited_in_queue(g, queue@, visited@)) by {
                assert forall|c: int| 0 <= c < visited@.len() && #[trigger] visited@[c] implies exists|q: int| 0 <= q < queue@.len() && state_code(g, #[trigger] queue@[q]) == c by {
                    assert(c == sc);
                    assert(state_code(g, queue@[0]) == c);
                }
            }
            assert(routes_ok(g, from, queue@, routes)) by {
                assert forall|q: int| 0 <= q < queue@.len() implies routes.contains_key(state_code(g, #[trigger] queue@[q]))
                    && route_reaches(g, from, routes[state_code(g, queue@[q])], queue@[q]) by {
                    assert(q == 0);
                }
            }
        }
        let mut head: usize = 0;
        while head < queue.len()
            invariant
                g == *self,
                graph_wf(*self),
                nk == self.node_count * arrivals(*self),
                from != to,
                search_ok(*self, from, to, queue@, head as int, visited@, came_from@, routes),
                bfs_layers(*self, queue@, head as int, routes),
                queue@.len() <= nk,
            decreases nk - head,
        {
            let cur = queue[head];
            proof {
                assert(queue_states_ok(g, queue@, visited@));
                assert(valid_state(g, queue@[head as int]));
            }
            let mut e: usize = 0;
            while e < self.edges.len()
                invariant
                    g == *self,
                    graph_wf(*self),
                    nk == self.node_count * arrivals(*self),
                    from != to,
                    search_ok(*self, from, to, queue@, head as int, visited@, came_from@, routes),
                    queue@.len() <= nk,
                    head < queue@.len(),
                    cur == queue@[head as int],
                    valid_state(g, cur),
                    e <= self.edges@.len(),
                    forall|e2: usize, n: usize| e2 < e && #[trigger] moves_to(g, cur, e2, n) ==> n != to
                        && valid_state(g, (n, Some(e2))) && visited@[state_code(g, (n, Some(e2)))],
                    bfs_layers(*self, queue@, head as int, routes),
                    forall|e2: usize, n: usize| e2 < e && #[trigger] moves_to(g, cur, e2, n)
                        ==> depth(g, routes, (n, Some(e2))) <= depth(g, routes, cur) + 1,
                decreases self.edges@.len() - e,
            {
                let edge = &self.edges[e];
                let jok = self.is_junction_routing_allowed(cur.0, cur.1, e);
                let fwd = jok && edge.source == cur.0 && any_track_allows(&edge.tracks, true);
                let bwd = jok && edge.target == cur.0 && any_track_allows(&edge.tracks, false);
                assert(fwd == (junction_ok(g, cur.0, cur.1, e) && g.edges@[e as int].source == cur.0 && usable(g.edges@[e as int], true)));
                assert(bwd == (junction_ok(g, cur.0, cur.1, e) && g.edges@[e as int].target == cur.0 && usable(g.edges@[e as int], false)));
                let ghost v_before = visited@;
                let ghost r_before = routes;
                proof {
                    lemma_state_code(g, cur, cur);
                    assert(visited@[state_code(g, queue@[head as int])]);
                }
                if fwd {
                    let n = edge.target;
                    if n == to {
                        let path = self.reconstruct(from, to, head, e, &queue, &came_from, Ghost(visited@), Ghost(routes));
                        proof {
                            let nodes = choose|nodes: Seq<usize>| route_between(*self, from, to, path@, nodes);
                            assert(route_between(*self, from, to, path@, nodes));
                            lemma_found_is_shortest(g, from, to, queue@, head as int, visited@, came_from@, routes);
                            assert(depth(g, routes, queue@[head as int]) <= head);
                        }
                        assert(is_route_between(*self, from, to, path@));
                        return Some(path);
                    }
                    let ghost r_pre = routes;
                    let Ghost(nr) = self.enqueue(from, to, head, n, e, &mut queue, &mut visited, &mut came_from, Ghost(routes));
                    proof {
                        routes = nr;
                        assert(routes[state_code(g, cur)] == r_pre[state_code(g, cur)]);
                    }
                }
                let ghost v_mid = visited@;
                let ghost r_mid = routes;
                proof {
                    assert forall|cc: int| 0 <= cc < v_before.len() && v_before[cc] implies #[trigger] r_mid[cc] == r_before[cc] && v_mid[cc] by {}
                }
                if bwd {
                    let n = edge.source;
                    if n == to {
                        let path = self.reconstruct(from, to, head, e, &queue, &came_from, Ghost(visited@), Ghost(routes));
                        proof {
                            let nodes = choose|nodes: Seq<usize>| route_between(*self, from, to, path@, nodes);
                            assert(route_between(*self, from, to, path@, nodes));
                            lemma_found_is_shortest(g, from, to, queue@, head as int, visited@, came_from@, routes);
                            assert(depth(g, routes, queue@[head as int]) <= head);
                        }
                        assert(is_route_between(*self, from, to, path@));
                        return Some(path);
                    }
                    let ghost r_pre = routes;
                    let Ghost(nr) = self.enqueue(from, to, head, n, e, &mut queue, &mut visited, &mut came_from, Ghost(routes));
                    proof {
                        routes = nr;
                        assert(routes[state_code(g, cur)] == r_pre[state_code(g, cur)]);
                    }
                }
                proof {
                    assert forall|cc: int| 0 <= cc < v_mid.len() && v_mid[cc] implies #[trigger] routes[cc] == r_mid[cc] by {}
                    assert(depth(g, routes, cur) == depth(g, r_before, cur));
                    assert forall|e2: usize, n: usize| e2 < e + 1 && #[trigger] moves_to(g, cur, e2, n)
                        implies depth(g, routes, (n, Some(e2))) <= depth(g, routes, cur) + 1 by {
                        lemma_state_code(g, (n, Some(e2)), (n, Some(e2)));
                        if e2 < e {
                            assert(v_before[state_code(g, (n, Some(e2)))]);
                            assert(depth(g, r_before, (n, Some(e2))) <= depth(g, r_before, cur) + 1);
                            assert(r_mid[state_code(g, (n, Some(e2)))] == r_before[state_code(g, (n, Some(e2)))]);
                        } else if g.edges@[e as int].source == cur.0 && g.edges@[e as int].target == n && usable(g.edges@[e as int], true) {
                            assert(fwd);
                            assert(v_mid[state_code(g, (n, Some(e2)))]);
                            assert(depth(g, r_mid, (n, Some(e2))) <= depth(g, r_mid, cur) + 1);
                        } else {
                            assert(bwd);
                        }
                    }
                }
                proof {
                    assert forall|e2: usize, n: usize| e2 < e + 1 && #[trigger] moves_to(g, cur, e2, n) implies n != to
                        && valid_state(g, (n, Some(e2))) && visited@[state_code(g, (n, Some(e2)))] by {
                        if e2 < e {
                            lemma_state_code(g, (n, Some(e2)), (n, Some(e2)));
                            assert(v_before[state_code(g, (n, Some(e2)))]);
                        } else {
                            if g.edges@[e as int].source == cur.0 && g.edges@[e as int].target == n && usable(g.edges@[e as int], true) {
                                assert(fwd);
                                lemma_state_code(g, (n, Some(e2)), (n, Some(e2)));
                            } else {
                                assert(bwd);
                            }
                        }
                    }
                }
                e = e + 1;
            }
            proof {
                assert(bfs_layers(g, queue@, head + 1, routes)) by {
                    assert forall|q: int, e2: usize, n: usize| 0 <= q < head + 1 && #[trigger] moves_to(g, queue@[q], e2, n)
                        implies depth(g, routes, (n, Some(e2))) <= depth(g, routes, queue@[q]) + 1 by {
                        if q == head {
                            assert(e2 < self.edges@.len());
                        }
                    }
                    if head + 1 < queue@.len() {
                        assert forall|q: int| 0 <= q < queue@.len() implies depth(g, routes, #[trigger] queue@[q]) <= depth(g, routes, queue@[head + 1]) + 1 by {
                            assert(depth(g, routes, queue@[head as int]) <= depth(g, routes, queue@[head + 1]));
                            assert(depth(g, routes, queue@[q]) <= depth(g, routes, queue@[head as int]) + 1);
                        }
                    }
                }
                assert(expanded_closed(g, to, queue@, head + 1, visited@)) by {
                    assert forall|q: int, e2: usize, n: usize| 0 <= q < head + 1 && #[trigger] moves_to(g, queue@[q], e2, n) implies n != to
                        && valid_state(g, (n, Some(e2))) && visited@[state_code(g, (n, Some(e2)))] by {
                        if q == head {
                            assert(e2 < self.edges@.len());
                        }
                    }
                }
            }
            head = head + 1;
        }
        proof {
            lemma_no_route_after_search(g, from, to, queue@, visited@, came_from@, routes);
        }
        None
    }
}

/// How a junction is named in messages: its name, or its node index.
pub open spec fn junction_label(j: Junction, node: usize) -> Seq<char> {
    match j.name {
        Some(n) => n@,
        None => "Junction at NodeIndex("@ + decimal_spec(node as nat) + ")"@,
    }
}

fn push_junction_label(out: &mut String, j: &Junction, node: usize)
    ensures
        final(out)@ == old(out)@ + junction_label(*j, node),
{
    match &j.name {
        Some(n) => {
            out.append(n.as_str());
        },
        None => {
            out.append("Junction at NodeIndex(");
            push_decimal(out, node as u64);
            out.append(")");
        },
    }
}

/// Consecutive segments `i` and `i + 1` of a route meet at a junction whose
/// rules forbid going from the first onto the second.
pub open spec fn forbidden_turn(g: RouteGraph, route: Seq<RouteSegment>, i: int) -> bool {
    let a = route[i].edge_index;
    let b = route[i + 1].edge_index;
    &&& a < g.edges@.len()
    &&& b < g.edges@.len()
    &&& g.edges@[a as int].target == g.edges@[b as int].source
    &&& g.junctions@[g.edges@[a as int].target as int] matches Some(j)
    &&& !routing_allowed(j.routing_rules@, a, b)
}

/// The first forbidden turn of a route at or after `i`.
pub open spec fn first_forbidden_turn(g: RouteGraph, route: Seq<RouteSegment>, i: int) -> Option<int>
    decreases route.len() - i,
{
    if i < 0 || i + 1 >= route.len() {
        None
    } else if forbidden_turn(g, route, i) {
        Some(i)
    } else {
        first_forbidden_turn(g, route, i + 1)
    }
}

/// The message for a forbidden turn.
pub open spec fn forbidden_turn_message(g: RouteGraph, route: Seq<RouteSegment>, i: int) -> Seq<char> {
    let a = route[i].edge_index;
    let b = route[i + 1].edge_index;
    let node = g.edges@[a as int].target;
    "Routing from edge "@ + decimal_spec(a as nat) + " to edge "@ + decimal_spec(b as nat) + " is not allowed at "@
        + junction_label(g.junctions@[node as int]->Some_0, node)
}

/// The node's segments: first those leaving it, then those arriving at it,
/// each in index order.
pub open spec fn connected_edges(g: RouteGraph, node: usize) -> Seq<usize> {
    Seq::new(g.edges@.len() as nat, |e: int| e as usize).filter(|e: usize| g.edges@[e as int].source == node)
        + Seq::new(g.edges@.len() as nat, |e: int| e as usize).filter(|e: usize| g.edges@[e as int].target == node)
}

impl RouteGraph {
    /// Check that a route only turns at junctions where the rules allow it:
    /// the message of the first forbidden turn, if any.
    pub fn validate_route_through_junctions(&self, route: &[RouteSegment]) -> (r: Result<(), String>)
        requires
            graph_wf(*self),
        ensures
            match first_forbidden_turn(*self, route@, 0) {
                None => r is Ok,
                Some(i) => r matches Err(msg) && msg@ == forbidden_turn_message(*self, route@, i),
            },
    {
        if route.len() < 2 {
            return Ok(());
        }
        let mut i: usize = 0;
        while i < route.len() - 1
            invariant
                graph_wf(*self),
                route@.len() >= 2,
                i + 1 <= route@.len(),
                first_forbidden_turn(*self, route@, 0) == first_forbidden_turn(*self, route@, i as int),
            decreases route@.len() - i,
        {
            let a = route[i].edge_index;
            let b = route[i + 1].edge_index;
            if a < self.edges.len() && b < self.edges.len() {
                let node = self.edges[a].target;
                if node == self.edges[b].source {
                    match &self.junctions[node] {
                        Some(j) => {
                            if !j.is_routing_allowed(a, b) {
                                let mut msg = String::from_str("Routing from edge ");
                                push_decimal(&mut msg, a as u64);
                                msg.append(" to edge ");
                                push_decimal(&mut msg, b as u64);
                                msg.append(" is not allowed at ");
                                push_junction_label(&mut msg, j, node);
                                proof {
                                    reveal_strlit("Routing from edge ");
                                    reveal_strlit(" to edge ");
                                    reveal_strlit(" is not allowed at ");
                                    assert(msg@ =~= forbidden_turn_message(*self, route@, i as int));
                                }
                                return Err(msg);
                            }
                        },
                        None => {},
                    }
                }
            }
            i = i + 1;
        }
        Ok(())
    }
}

/// The rule names a segment that does not touch the junction.
pub open spec fn bad_rule(r: RoutingRule, edges: Seq<usize>) -> bool {
    !edges.contains(r.from_edge) || !edges.contains(r.to_edge)
}

/// The first rule at or after `k` that names a segment not touching the junction.
pub open spec fn first_bad_rule(rules: Seq<RoutingRule>, edges: Seq<usize>, k: int) -> Option<int>
    decreases rules.len() - k,
{
    if k < 0 || k >= rules.len() {
        None
    } else if bad_rule(rules[k], edges) {
        Some(k)
    } else {
        first_bad_rule(rules, edges, k + 1)
    }
}

/// The first segment at or after `i` from which the rules allow no way on.
pub open spec fn first_dead_end(rules: Seq<RoutingRule>, edges: Seq<usize>, i: int) -> Option<int>
    decreases edges.len() - i,
{
    if i < 0 || i >= edges.len() {
        None
    } else if edges.filter(allowed_after(rules, edges[i])).len() == 0 {
        Some(i)
    } else {
        first_dead_end(rules, edges, i + 1)
    }
}

/// What `validate_junction` reports for a node: nothing when the junction is
/// sound, else the message of its first problem.
pub open spec fn junction_problem(g: RouteGraph, node: usize) -> Option<Seq<char>> {
    if node >= g.node_count || g.junctions@[node as int] is None {
        Some("Node is not a junction"@)
    } else {
        let j = g.junctions@[node as int]->Some_0;
        let edges = connected_edges(g, node);
        let label = junction_label(j, node);
        if edges.len() < 3 {
            Some(label + " has only "@ + decimal_spec(edges.len()) + " connection(s), minimum is 3"@)
        } else {
            match first_bad_rule(j.routing_rules@, edges, 0) {
                Some(k) => {
                    let r = j.routing_rules@[k];
                    if !edges.contains(r.from_edge) {
                        Some("Routing rule references non-existent from_edge: "@ + decimal_spec(r.from_edge as nat))
                    } else {
                        Some("Routing rule references non-existent to_edge: "@ + decimal_spec(r.to_edge as nat))
                    }
                },
                None => match first_dead_end(j.routing_rules@, edges, 0) {
                    Some(i) => Some(label + ": edge "@ + decimal_spec(edges[i] as nat)
                        + " has no allowed outgoing routes (creates a dead end)"@),
                    None => None,
                },
            }
        }
    }
}

fn contains_usize(v: &Vec<usize>, x: usize) -> (r: bool)
    ensures
        r == v@.contains(x),
{
    let mut i: usize = 0;
    while i < v.len()
        invariant
            i <= v@.len(),
            forall|k: int| 0 <= k < i ==> v@[k] != x,
        decreases v.len() - i,
    {
        if v[i] == x {
            return true;
        }
        i = i + 1;
    }
    false
}

impl RouteGraph {
    /// The segments touching `node`: leaving ones, then arriving ones.
    /// The segments touching `node`: those leaving it, then those arriving
    /// at it, each group by index (see `connected_edges`).
    pub fn get_station_edges(&self, node: usize) -> (r: Vec<usize>)
        ensures
            r@ == connected_edges(*self, node),
    {
        let ghost all = Seq::new(self.edges@.len() as nat, |e: int| e as usize);
        let ghost out_p = |e: usize| self.edges@[e as int].source == node;
        let ghost in_p = |e: usize| self.edges@[e as int].target == node;
        let mut outgoing: Vec<usize> = Vec::new();
        let mut k: usize = 0;
        while k < self.edges.len()
            invariant
                all == Seq::new(self.edges@.len() as nat, |e: int| e as usize),
                out_p == (|e: usize| self.edges@[e as int].source == node),
                k <= self.edges@.len(),
                outgoing@ == all.take(k as int).filter(out_p),
            decreases self.edges@.len() - k,
        {
            proof {
                let t = all.take(k + 1);
                assert(t.drop_last() =~= all.take(k as int));
                assert(t.last() == k);
                reveal(Seq::filter);
            }
            if self.edges[k].source == node {
                outgoing.push(k);
            }
            k = k + 1;
        }
        assert(all.take(self.edges@.len() as int) =~= all);
        let mut incoming: Vec<usize> = Vec::new();
        let mut k: usize = 0;
        while k < self.edges.len()
            invariant
                all == Seq::new(self.edges@.len() as nat, |e: int| e as usize),
                in_p == (|e: usize| self.edges@[e as int].target == node),
                k <= self.edges@.len(),
                incoming@ == all.take(k as int).filter(in_p),
            decreases self.edges@.len() - k,
        {
            proof {
                let t = all.take(k + 1);
                assert(t.drop_last() =~= all.take(k as int));
                assert(t.last() == k);
                reveal(Seq::filter);
            }
            if self.edges[k].target == node {
                incoming.push(k);
            }
            k = k + 1;
        }
        assert(all.take(self.edges@.len() as int) =~= all);
        outgoing.append(&mut incoming);
        outgoing
    }

    /// Check a junction: it must be one, touch at least three segments, have
    /// rules only about segments that touch it, and allow a way on from every
    /// segment (see `junction_problem`).
    pub fn validate_junction(&self, index: usize) -> (r: Result<(), String>)
        requires
            graph_wf(*self),
        ensures
            match junction_problem(*self, index) {
                None => r is Ok,
                Some(m) => r matches Err(msg) && msg@ == m,
            },
    {
        proof {
            reveal_strlit("Node is not a junction");
            reveal_strlit(" has only ");
            reveal_strlit(" connection(s), minimum is 3");
            reveal_strlit("Routing rule references non-existent from_edge: ");
            reveal_strlit("Routing rule references non-existent to_edge: ");
            reveal_strlit(": edge ");
            reveal_strlit(" has no allowed outgoing routes (creates a dead end)");
        }
        if index >= self.node_count {
            return Err(String::from_str("Node is not a junction"));
        }
        let j = match &self.junctions[index] {
            None => {
                return Err(String::from_str("Node is not a junction"));
            },
            Some(j) => j,
        };
        let edges = self.get_station_edges(index);
        if edges.len() < 3 {
            let mut msg = String::new();
            push_junction_label(&mut msg, j, index);
            msg.append(" has only ");
            push_decimal(&mut msg, edges.len() as u64);
            msg.append(" connection(s), minimum is 3");
            proof {
                assert(msg@ =~= junction_problem(*self, index)->Some_0);
            }
            return Err(msg);
        }
        let ghost rules = j.routing_rules@;
        let mut k: usize = 0;
        while k < j.routing_rules.len()
            invariant
                rules == j.routing_rules@,
                index < self.node_count,
                self.junctions@[index as int] == Some(*j),
                edges@ == connected_edges(*self, index),
                edges@.len() >= 3,
                k <= rules.len(),
                first_bad_rule(rules, edges@, 0) == first_bad_rule(rules, edges@, k as int),
            decreases rules.len() - k,
        {
            let rule = j.routing_rules[k];
            if !contains_usize(&edges, rule.from_edge) {
                let mut msg = String::from_str("Routing rule references non-existent from_edge: ");
                push_decimal(&mut msg, rule.from_edge as u64);
                proof {
                    assert(bad_rule(rules[k as int], edges@));
                    assert(first_bad_rule(rules, edges@, k as int) == Some(k as int));
                    assert(msg@ =~= junction_problem(*self, index)->Some_0);
                }
                return Err(msg);
            }
            if !contains_usize(&edges, rule.to_edge) {
                let mut msg = String::from_str("Routing rule references non-existent to_edge: ");
                push_decimal(&mut msg, rule.to_edge as u64);
                proof {
                    assert(bad_rule(rules[k as int], edges@));
                    assert(first_bad_rule(rules, edges@, k as int) == Some(k as int));
                    assert(msg@ =~= junction_problem(*self, index)->Some_0);
                }
                return Err(msg);
            }
            k = k + 1;
        }
        let mut i: usize = 0;
        while i < edges.len()
            invariant
                rules == j.routing_rules@,
                index < self.node_count,
                self.junctions@[index as int] == Some(*j),
                edges@ == connected_edges(*self, index),
                edges@.len() >= 3,
                first_bad_rule(rules, edges@, 0) is None,
                i <= edges@.len(),
                first_dead_end(rules, edges@, 0) == first_dead_end(rules, edges@, i as int),
            decreases edges@.len() - i,
        {
            let allowed = j.get_allowed_outgoing_edges(edges[i], edges.as_slice());
            if allowed.len() == 0 {
                let mut msg = String::new();
                push_junction_label(&mut msg, j, index);
                msg.append(": edge ");
                push_decimal(&mut msg, edges[i] as u64);
                msg.append(" has no allowed outgoing routes (creates a dead end)");
                proof {
                    assert(first_dead_end(rules, edges@, i as int) == Some(i as int));
                    assert(msg@ =~= junction_problem(*self, index)->Some_0);
                }
                return Err(msg);
            }
            i = i + 1;
        }
        Ok(())
    }
}

/// The direction a segment `(edge_from, edge_to)` is travelled in: away from
/// the node the route came from; for the first segment, towards the segment
/// after it; else forward.
pub open spec fn travel_direction(g: RouteGraph, edge_from: usize, edge_to: usize, prev: Option<usize>, next: Option<usize>) -> (usize, usize) {
    match prev {
        Some(p) => if p == edge_from {
            (edge_from, edge_to)
        } else if p == edge_to {
            (edge_to, edge_from)
        } else {
            (edge_from, edge_to)
        },
        None => match next {
            Some(ne) => if ne < g.edges@.len() {
                let nf = g.edges@[ne as int].source;
                let nt = g.edges@[ne as int].target;
                if edge_to == nf || edge_to == nt {
                    (edge_from, edge_to)
                } else if edge_from == nf || edge_from == nt {
                    (edge_to, edge_from)
                } else {
                    (edge_from, edge_to)
                }
            } else {
                (edge_from, edge_to)
            },
            None => (edge_from, edge_to),
        },
    }
}

/// The nodes a route passes after its first `n` segments, and the node it
/// has reached: segments that do not exist or do not continue from the
/// node reached are passed over; the first segment adds its origin.
pub open spec fn route_nodes_upto(g: RouteGraph, route: Seq<RouteSegment>, n: int) -> (Seq<usize>, Option<usize>)
    decreases n,
{
    if n <= 0 {
        (Seq::empty(), None)
    } else {
        let prev = route_nodes_upto(g, route, n - 1);
        let i = n - 1;
        let e = route[i].edge_index;
        if e >= g.edges@.len() {
            prev
        } else {
            let next = if i + 1 < route.len() { Some(route[i + 1].edge_index) } else { None };
            let (tf, tt) = travel_direction(g, g.edges@[e as int].source, g.edges@[e as int].target, prev.1, next);
            if prev.1 matches Some(c) && c != tf {
                prev
            } else {
                let with_origin = if i == 0 { prev.0.push(tf) } else { prev.0 };
                (with_origin.push(tt), Some(tt))
            }
        }
    }
}

/// The nodes a route passes, in order (duplicates kept).
pub open spec fn route_nodes(g: RouteGraph, route: Seq<RouteSegment>) -> Seq<usize> {
    route_nodes_upto(g, route, route.len() as int).0
}

impl RouteGraph {
    /// The direction a segment is travelled in (see `travel_direction`).
    pub fn determine_travel_direction(
        &self,
        edge_from: usize,
        edge_to: usize,
        prev_node: Option<usize>,
        next_segment: Option<&RouteSegment>,
    ) -> (r: (usize, usize))
        requires
            graph_wf(*self),
        ensures
            r == travel_direction(*self, edge_from, edge_to, prev_node, match next_segment { Some(s) => Some(s.edge_index), None => None }),
    {
        match prev_node {
            Some(prev) => {
                if prev == edge_from {
                    (edge_from, edge_to)
                } else if prev == edge_to {
                    (edge_to, edge_from)
                } else {
                    (edge_from, edge_to)
                }
            },
            None => match next_segment {
                Some(next) => {
                    if next.edge_index < self.edges.len() {
                        let nf = self.edges[next.edge_index].source;
                        let nt = self.edges[next.edge_index].target;
                        if edge_to == nf || edge_to == nt {
                            (edge_from, edge_to)
                        } else if edge_from == nf || edge_from == nt {
                            (edge_to, edge_from)
                        } else {
                            (edge_from, edge_to)
                        }
                    } else {
                        (edge_from, edge_to)
                    }
                },
                None => (edge_from, edge_to),
            },
        }
    }

    /// The nodes a route passes, in order (see `route_nodes`). Both directions
    /// of a line read their route the same way.
    pub fn get_stations_from_route(&self, route: &[RouteSegment], direction: RouteDirection) -> (r: Vec<usize>)
        requires
            graph_wf(*self),
        ensures
            r@ == route_nodes(*self, route@),
    {
        let mut nodes: Vec<usize> = Vec::new();
        let mut current: Option<usize> = None;
        let mut i: usize = 0;
        while i < route.len()
            invariant
                graph_wf(*self),
                i <= route@.len(),
                (nodes@, current) == route_nodes_upto(*self, route@, i as int),
            decreases route@.len() - i,
        {
            let e = route[i].edge_index;
            if e < self.edges.len() {
                let next = if i + 1 < route.len() { Some(&route[i + 1]) } else { None };
                let (tf, tt) = self.determine_travel_direction(self.edges[e].source, self.edges[e].target, current, next);
                let continues = match current {
                    Some(c) => c == tf,
                    None => true,
                };
                if continues {
                    if i == 0 {
                        nodes.push(tf);
                    }
                    nodes.push(tt);
                    current = Some(tt);
                }
            }
            i = i + 1;
        }
        nodes
    }

    /// The first and last node a route passes.
    pub fn get_route_endpoints(&self, route: &[RouteSegment], direction: RouteDirection) -> (r: (Option<usize>, Option<usize>))
        requires
            graph_wf(*self),
        ensures
            ({
                let ns = route_nodes(*self, route@);
                r == (if ns.len() > 0 { (Some(ns[0]), Some(ns.last())) } else { (None, None) })
            }),
    {
        let nodes = self.get_stations_from_route(route, direction);
        if nodes.len() > 0 {
            (Some(nodes[0]), Some(nodes[nodes.len() - 1]))
        } else {
            (None, None)
        }
    }
}

/// A route leads from `a` to `b` (and `a` is not `b`).
pub open spec fn reachable(g: RouteGraph, a: usize, b: usize) -> bool {
    a != b && exists|p: Seq<usize>| is_route_between(g, a, b, p)
}

/// Stations from which (forward) or to which (return) the route's first node
/// can be reached.
pub open spec fn can_start(g: RouteGraph, first: usize, direction: RouteDirection) -> spec_fn(usize) -> bool {
    |n: usize| match direction {
        RouteDirection::Forward => reachable(g, n, first),
        RouteDirection::Return => reachable(g, first, n),
    }
}

/// Stations that can be reached from (forward) or that reach (return) the
/// route's last node.
pub open spec fn can_end(g: RouteGraph, last: usize, direction: RouteDirection) -> spec_fn(usize) -> bool {
    |n: usize| match direction {
        RouteDirection::Forward => reachable(g, last, n),
        RouteDirection::Return => reachable(g, n, last),
    }
}

/// `p` is a route from `a` to `b` with no fewer segments than any other.
pub open spec fn shortest_route(g: RouteGraph, a: usize, b: usize, p: Seq<usize>) -> bool {
    &&& is_route_between(g, a, b, p)
    &&& forall|p2: Seq<usize>| #[trigger] is_route_between(g, a, b, p2) ==> p.len() <= p2.len()
}

/// Concatenation of route parts.
pub open spec fn concat_parts(parts: Seq<Seq<usize>>) -> Seq<usize>
    decreases parts.len(),
{
    if parts.len() == 0 {
        Seq::empty()
    } else {
        concat_parts(parts.drop_last()) + parts.last()
    }
}

impl RouteGraph {
    /// Whether a route leads from `a` to `b` (`a` not `b`).
    fn has_path(&self, a: usize, b: usize) -> (r: bool)
        requires
            graph_wf(*self),
        ensures
            r == reachable(*self, a, b),
    {
        match self.find_path_between_nodes(a, b) {
            Some(p) => {
                assert(is_route_between(*self, a, b, p@));
                true
            },
            None => false,
        }
    }

    /// The stations, in order, from which `end` can be reached (`towards_end`)
    /// or which can be reached from `end`.
    fn stations_reaching(&self, stations: &[usize], end: usize, towards_end: bool) -> (r: Vec<usize>)
        requires
            graph_wf(*self),
        ensures
            r@ == stations@.filter(|n: usize| if towards_end { reachable(*self, n, end) } else { reachable(*self, end, n) }),
    {
        let ghost pred = |n: usize| if towards_end { reachable(*self, n, end) } else { reachable(*self, end, n) };
        let mut out: Vec<usize> = Vec::new();
        let mut i: usize = 0;
        while i < stations.len()
            invariant
                graph_wf(*self),
                pred == (|n: usize| if towards_end { reachable(*self, n, end) } else { reachable(*self, end, n) }),
                i <= stations@.len(),
                out@ == stations@.take(i as int).filter(pred),
            decreases stations@.len() - i,
        {
            let n = stations[i];
            proof {
                let t = stations@.take(i + 1);
                assert(t.drop_last() =~= stations@.take(i as int));
                assert(t.last() == n);
                reveal(Seq::filter);
            }
            let ok = if towards_end { self.has_path(n, end) } else { self.has_path(end, n) };
            if ok {
                out.push(n);
            }
            i = i + 1;
        }
        assert(stations@.take(stations@.len() as int) =~= stations@);
        out
    }

    /// The stations (of `stations`, in order) where the route could start
    /// instead: those from which its first node can be reached going forward,
    /// or which can be reached from it on the return route.
    pub fn get_available_start_stations(&self, route: &[RouteSegment], direction: RouteDirection, stations: &[usize]) -> (r: Vec<usize>)
        requires
            graph_wf(*self),
        ensures
            ({
                let ns = route_nodes(*self, route@);
                r@ == if ns.len() == 0 { Seq::empty() } else { stations@.filter(can_start(*self, ns[0], direction)) }
            }),
    {
        let (first, _) = self.get_route_endpoints(route, direction);
        match first {
            None => Vec::new(),
            Some(f) => {
                let towards = direction == RouteDirection::Forward;
                let r = self.stations_reaching(stations, f, towards);
                proof {
                    let a = |n: usize| if towards { reachable(*self, n, f) } else { reachable(*self, f, n) };
                    assert(a =~= can_start(*self, f, direction));
                }
                r
            },
        }
    }

    /// The stations (of `stations`, in order) where the route could end
    /// instead: those that can be reached from its last node going forward,
    /// or from which it can be reached on the return route.
    pub fn get_available_end_stations(&self, route: &[RouteSegment], direction: RouteDirection, stations: &[usize]) -> (r: Vec<usize>)
        requires
            graph_wf(*self),
        ensures
            ({
                let ns = route_nodes(*self, route@);
                r@ == if ns.len() == 0 { Seq::empty() } else { stations@.filter(can_end(*self, ns.last(), direction)) }
            }),
    {
        let (_, last) = self.get_route_endpoints(route, direction);
        match last {
            None => Vec::new(),
            Some(l) => {
                let towards = direction == RouteDirection::Return;
                let r = self.stations_reaching(stations, l, towards);
                proof {
                    let a = |n: usize| if towards { reachable(*self, n, l) } else { reachable(*self, l, n) };
                    assert(a =~= can_end(*self, l, direction));
                }
                r
            },
        }
    }

    /// A route through the waypoints in order: shortest routes between
    /// consecutive waypoints joined together; `None` with fewer than two waypoints or when
    /// some leg has no route (or joins a waypoint to itself).
    pub fn find_multi_point_path(&self, waypoints: &[usize]) -> (r: Option<Vec<usize>>)
        requires
            graph_wf(*self),
        ensures
            waypoints@.len() < 2 ==> r is None,
            r matches Some(p) ==> exists|parts: Seq<Seq<usize>>| {
                &&& parts.len() + 1 == waypoints@.len()
                &&& forall|i: int| 0 <= i < parts.len() ==> #[trigger] shortest_route(*self, waypoints@[i], waypoints@[i + 1], parts[i])
                &&& p@ == concat_parts(parts)
            },
            r is None && waypoints@.len() >= 2 ==> exists|i: int| 0 <= i < waypoints@.len() - 1
                && !reachable(*self, #[trigger] waypoints@[i], waypoints@[i + 1]),
    {
        if waypoints.len() < 2 {
            return None;
        }
        let mut complete: Vec<usize> = Vec::new();
        let ghost mut parts: Seq<Seq<usize>> = Seq::empty();
        let mut i: usize = 0;
        while i < waypoints.len() - 1
            invariant
                graph_wf(*self),
                waypoints@.len() >= 2,
                i <= waypoints@.len() - 1,
                parts.len() == i,
                forall|k: int| 0 <= k < parts.len() ==> #[trigger] shortest_route(*self, waypoints@[k], waypoints@[k + 1], parts[k]),
                complete@ == concat_parts(parts),
            decreases waypoints@.len() - 1 - i,
        {
            let from = waypoints[i];
            let to = waypoints[i + 1];
            match self.find_path_between_nodes(from, to) {
                Some(mut seg) => {
                    proof {
                        let old_parts = parts;
                        parts = parts.push(seg@);
                        assert(parts.drop_last() =~= old_parts);
                        assert(shortest_route(*self, from, to, seg@));
                        assert forall|k: int| 0 <= k < parts.len() implies #[trigger] shortest_route(*self, waypoints@[k], waypoints@[k + 1], parts[k]) by {
                            if k < old_parts.len() {
                                assert(parts[k] == old_parts[k]);
                            }
                        }
                    }
                    complete.append(&mut seg);
                },
                None => {
                    proof {
                        if reachable(*self, from, to) {
                            let p = choose|p: Seq<usize>| is_route_between(*self, from, to, p);
                        }
                        assert(!reachable(*self, waypoints@[i as int], waypoints@[i + 1]));
                    }
                    return None;
                },
            }
            i = i + 1;
        }
        Some(complete)
    }
}

/// Node `r[i]` is the target of a segment leaving an earlier node of `r`.
pub open spec fn discovered(g: RouteGraph, r: Seq<usize>, i: int) -> bool {
    exists|j: int, e: int| #![trigger g.edges@[e], r[j]] 0 <= j < i && 0 <= e < g.edges@.len() && g.edges@[e].source == r[j]
        && g.edges@[e].target == r[i]
}

/// `r` lists every node once, starting from node 0: first the nodes met by
/// following segments forward from it (each found from an earlier one, and
/// together closed under following segments), then the others in index order.
pub open spec fn nodes_in_search_order(g: RouteGraph, r: Seq<usize>) -> bool {
    &&& r.len() == g.node_count
    &&& r.no_duplicates()
    &&& forall|i: int| 0 <= i < r.len() ==> #[trigger] r[i] < g.node_count
    &&& g.node_count > 0 ==> {
        &&& r[0] == 0
        &&& exists|k: int| #[trigger] search_split(g, r, k)
    }
}

/// The first `k` nodes of `r` are those of the walk from node 0, the rest
/// follow in index order.
pub open spec fn search_split(g: RouteGraph, r: Seq<usize>, k: int) -> bool {
    &&& 0 < k <= r.len()
    &&& forall|i: int| 1 <= i < k ==> #[trigger] discovered(g, r, i)
    &&& forall|i: int, e: int| #![trigger g.edges@[e], r[i]] 0 <= i < k && 0 <= e < g.edges@.len() && g.edges@[e].source == r[i]
        ==> r.take(k).contains(g.edges@[e].target)
    &&& forall|i: int, i2: int| k <= i < i2 < r.len() ==> r[i] < r[i2]
}

/// The stations of a node order (nodes that are not junctions), in order.
pub open spec fn stations_only(g: RouteGraph) -> spec_fn(usize) -> bool {
    |n: usize| g.junctions@[n as int] is None
}

proof fn lemma_covers_all(r: Seq<usize>, n: int)
    requires
        0 <= n <= usize::MAX,
        r.no_duplicates(),
        forall|i: int| 0 <= i < r.len() ==> 0 <= #[trigger] r[i] < n,
        forall|x: usize| 0 <= x < n ==> #[trigger] r.contains(x),
    ensures
        r.len() == n,
{
    let codes = r.map_values(|x: usize| x as int);
    assert(codes.no_duplicates()) by {
        assert forall|i: int, j: int| 0 <= i < codes.len() && 0 <= j < codes.len() && i != j implies codes[i] != codes[j] by {
            assert(r[i] != r[j]);
        }
    }
    codes.unique_seq_to_set();
    vstd::set_lib::lemma_int_range(0, n);
    assert(codes.to_set() =~= vstd::set_lib::set_int_range(0, n)) by {
        assert forall|x: int| codes.to_set().contains(x) <==> vstd::set_lib::set_int_range(0, n).contains(x) by {
            if codes.to_set().contains(x) {
                let i = choose|i: int| 0 <= i < codes.len() && codes[i] == x;
            }
            if 0 <= x < n {
                assert(r.contains(x as usize));
                let i = choose|i: int| 0 <= i < r.len() && r[i] == x as usize;
                assert(codes[i] == x);
            }
        }
    }
}

impl RouteGraph {
    /// Every node once: a breadth-first walk along segments (from source to
    /// target) from node 0, then the nodes it did not reach, in index order.
    pub fn get_all_nodes_ordered(&self) -> (r: Vec<usize>)
        requires
            graph_wf(*self),
        ensures
            nodes_in_search_order(*self, r@),
    {
        let n = self.node_count;
        let mut seen: Vec<bool> = Vec::new();
        let mut k: usize = 0;
        while k < n
            invariant
                k <= n,
                seen@.len() == k,
                forall|x: int| 0 <= x < k ==> !seen@[x],
            decreases n - k,
        {
            seen.push(false);
            k = k + 1;
        }
        let mut order: Vec<usize> = Vec::new();
        if n == 0 {
            return order;
        }
        order.push(0);
        seen.set(0, true);
        proof {
            assert forall|x: int| 0 <= x < n implies (seen@[x] <==> order@.contains(x as usize)) by {
                if x == 0 {
                    assert(order@[0] == 0);
                } else if order@.contains(x as usize) {
                    let i = choose|i: int| 0 <= i < order@.len() && order@[i] == x as usize;
                    assert(i == 0);
                }
            }
        }
        let mut head: usize = 0;
        while head < order.len()
            invariant
                graph_wf(*self),
                n == self.node_count,
                n > 0,
                seen@.len() == n,
                order@.len() > 0,
                order@[0] == 0,
                head <= order@.len(),
                order@.no_duplicates(),
                forall|i: int| 0 <= i < order@.len() ==> #[trigger] order@[i] < n,
                forall|x: int| 0 <= x < n ==> (seen@[x] <==> order@.contains(x as usize)),
                forall|i: int| 1 <= i < order@.len() ==> #[trigger] discovered(*self, order@, i),
                forall|i: int, e: int| #![trigger self.edges@[e], order@[i]] 0 <= i < head && 0 <= e < self.edges@.len() && self.edges@[e].source == order@[i]
                    ==> seen@[self.edges@[e].target as int],
            decreases n - head,
        {
            proof {
                lemma_covers_bound(order@, n as int);
            }
            let cur = order[head];
            let mut e: usize = 0;
            while e < self.edges.len()
                invariant
                    graph_wf(*self),
                    n == self.node_count,
                    n > 0,
                    seen@.len() == n,
                    order@.len() > 0,
                    order@[0] == 0,
                    head < order@.len(),
                    cur == order@[head as int],
                    order@.no_duplicates(),
                    forall|i: int| 0 <= i < order@.len() ==> #[trigger] order@[i] < n,
                    forall|x: int| 0 <= x < n ==> (seen@[x] <==> order@.contains(x as usize)),
                    forall|i: int| 1 <= i < order@.len() ==> #[trigger] discovered(*self, order@, i),
                    forall|i: int, e2: int| #![trigger self.edges@[e2], order@[i]] 0 <= i < head && 0 <= e2 < self.edges@.len() && self.edges@[e2].source == order@[i]
                        ==> seen@[self.edges@[e2].target as int],
                    e <= self.edges@.len(),
                    forall|e2: int| 0 <= e2 < e && #[trigger] self.edges@[e2].source == cur ==> seen@[self.edges@[e2].target as int],
                decreases self.edges@.len() - e,
            {
                if self.edges[e].source == cur {
                    let t = self.edges[e].target;
                    if !seen[t] {
                        let ghost before = order@;
                        seen.set(t, true);
                        order.push(t);
                        proof {
                            assert(!before.contains(t));
                            assert(order@.no_duplicates()) by {
                                assert forall|i: int, j: int| 0 <= i < order@.len() && 0 <= j < order@.len() && i != j
                                    implies order@[i] != order@[j] by {
                                    if i < before.len() && j < before.len() {
                                        assert(before[i] != before[j]);
                                    } else if i < before.len() {
                                        assert(before.contains(before[i]));
                                    } else if j < before.len() {
                                        assert(before.contains(before[j]));
                                    }
                                }
                            }
                            assert forall|x: int| 0 <= x < n implies (seen@[x] <==> order@.contains(x as usize)) by {
                                if x == t {
                                    assert(order@[before.len() as int] == t);
                                } else {
                                    if before.contains(x as usize) {
                                        let i = choose|i: int| 0 <= i < before.len() && before[i] == x as usize;
                                        assert(order@[i] == x as usize);
                                    }
                                    if order@.contains(x as usize) {
                                        let i = choose|i: int| 0 <= i < order@.len() && order@[i] == x as usize;
                                        assert(i < before.len());
                                        assert(before[i] == x as usize);
                                    }
                                }
                            }
                            assert forall|i: int| 1 <= i < order@.len() implies #[trigger] discovered(*self, order@, i) by {
                                if i < before.len() {
                                    assert(discovered(*self, before, i));
                                    let (j, e2) = choose|j: int, e2: int| #![trigger self.edges@[e2], before[j]] 0 <= j < i && 0 <= e2 < self.edges@.len()
                                        && self.edges@[e2].source == before[j] && self.edges@[e2].target == before[i];
                                    assert(order@[j] == before[j] && order@[i] == before[i]);
                                } else {
                                    assert(self.edges@[e as int].source == order@[head as int]);
                                    assert(self.edges@[e as int].target == order@[i]);
                                }
                            }
                        }
                    }
                }
                e = e + 1;
            }
            head = head + 1;
        }
        // nodes the walk did not reach, in index order
        let ghost k_bfs = order@.len() as int;
        let ghost bfs = order@;
        let mut x: usize = 0;
        while x < n
            invariant
                graph_wf(*self),
                n == self.node_count,
                n > 0,
                seen@.len() == n,
                order@[0] == 0,
                0 < k_bfs <= order@.len(),
                order@.take(k_bfs) == bfs,
                order@.no_duplicates(),
                x <= n,
                forall|i: int| 0 <= i < order@.len() ==> #[trigger] order@[i] < n,
                forall|z: int| 0 <= z < n ==> (seen@[z] <==> order@.contains(z as usize)),
                forall|z: int| 0 <= z < x ==> seen@[z],
                forall|i: int| 1 <= i < k_bfs ==> #[trigger] discovered(*self, bfs, i),
                forall|i: int, e: int| #![trigger self.edges@[e], bfs[i]] 0 <= i < k_bfs && 0 <= e < self.edges@.len() && self.edges@[e].source == bfs[i]
                    ==> bfs.contains(self.edges@[e].target),
                forall|i: int| k_bfs <= i < order@.len() ==> #[trigger] order@[i] < x,
                forall|i: int, i2: int| k_bfs <= i < i2 < order@.len() ==> order@[i] < order@[i2],
            decreases n - x,
        {
            if !seen[x] {
                let ghost before = order@;
                seen.set(x, true);
                order.push(x);
                proof {
                    assert(!before.contains(x));
                    assert(order@.take(k_bfs) =~= before.take(k_bfs));
                    assert(order@.no_duplicates()) by {
                        assert forall|i: int, j: int| 0 <= i < order@.len() && 0 <= j < order@.len() && i != j
                            implies order@[i] != order@[j] by {
                            if i < before.len() && j < before.len() {
                                assert(before[i] != before[j]);
                            } else if i < before.len() {
                                assert(before.contains(before[i]));
                            } else if j < before.len() {
                                assert(before.contains(before[j]));
                            }
                        }
                    }
                    assert forall|z: int| 0 <= z < n implies (seen@[z] <==> order@.contains(z as usize)) by {
                        if z == x {
                            assert(order@[before.len() as int] == x);
                        } else {
                            if before.contains(z as usize) {
                                let i = choose|i: int| 0 <= i < before.len() && before[i] == z as usize;
                                assert(order@[i] == z as usize);
                            }
                            if order@.contains(z as usize) {
                                let i = choose|i: int| 0 <= i < order@.len() && order@[i] == z as usize;
                                assert(i < before.len());
                                assert(before[i] == z as usize);
                            }
                        }
                    }
                }
            }
            x = x + 1;
        }
        proof {
            let r = order@;
            assert forall|i: int| 0 <= i < k_bfs implies r[i] == bfs[i] by {
                assert(r.take(k_bfs)[i] == bfs[i]);
            }
            assert forall|i: int| 1 <= i < k_bfs implies #[trigger] discovered(*self, r, i) by {
                assert(discovered(*self, bfs, i));
                let (j, e2) = choose|j: int, e2: int| #![trigger self.edges@[e2], bfs[j]] 0 <= j < i && 0 <= e2 < self.edges@.len()
                    && self.edges@[e2].source == bfs[j] && self.edges@[e2].target == bfs[i];
                assert(r[j] == bfs[j]);
            }
            assert forall|i: int, e: int| #![trigger self.edges@[e], r[i]] 0 <= i < k_bfs && 0 <= e < self.edges@.len() && self.edges@[e].source == r[i]
                implies r.take(k_bfs).contains(self.edges@[e].target) by {
                assert(r[i] == bfs[i]);
            }
            assert forall|z: usize| 0 <= z < n implies #[trigger] r.contains(z) by {
                assert(seen@[z as int]);
            }
            lemma_covers_all(r, n as int);
            assert(search_split(*self, r, k_bfs));
        }
        order
    }

    /// The stations (nodes that are not junctions) in the order of
    /// `get_all_nodes_ordered`.
    pub fn get_all_stations_ordered(&self) -> (r: Vec<usize>)
        requires
            graph_wf(*self),
        ensures
            exists|all: Seq<usize>| nodes_in_search_order(*self, all) && r@ == all.filter(stations_only(*self)),
    {
        let all = self.get_all_nodes_ordered();
        let ghost pred = stations_only(*self);
        let mut out: Vec<usize> = Vec::new();
        let mut i: usize = 0;
        while i < all.len()
            invariant
                graph_wf(*self),
                nodes_in_search_order(*self, all@),
                pred == stations_only(*self),
                i <= all@.len(),
                out@ == all@.take(i as int).filter(pred),
            decreases all@.len() - i,
        {
            let nidx = all[i];
            proof {
                let t = all@.take(i + 1);
                assert(t.drop_last() =~= all@.take(i as int));
                assert(t.last() == nidx);
                reveal(Seq::filter);
                assert(nidx < self.node_count);
            }
            if self.junctions[nidx].is_none() {
                out.push(nidx);
            }
            i = i + 1;
        }
        assert(all@.take(all@.len() as int) =~= all@);
        out
    }
}

proof fn lemma_covers_bound(r: Seq<usize>, n: int)
    requires
        0 <= n,
        r.no_duplicates(),
        forall|i: int| 0 <= i < r.len() ==> 0 <= #[trigger] r[i] < n,
    ensures
        r.len() <= n,
{
    let codes = r.map_values(|x: usize| x as int);
    assert(codes.no_duplicates()) by {
        assert forall|i: int, j: int| 0 <= i < codes.len() && 0 <= j < codes.len() && i != j implies codes[i] != codes[j] by {
            assert(r[i] != r[j]);
        }
    }
    lemma_distinct_bounded(codes, n);
}

/// The first track at or after `i` that may be used in the direction
/// (forward unless `backward`), or 0 when there is none.
pub open spec fn first_track_for(ts: Seq<Track>, backward: bool, i: int) -> int
    decreases ts.len() - i,
{
    if i < 0 || i >= ts.len() {
        0
    } else if direction_allows(ts[i].direction, !backward) {
        i
    } else {
        first_track_for(ts, backward, i + 1)
    }
}

/// Default platform when arriving over a segment: the segment's configured
/// one for that end, else the last platform for right-hand traffic arriving
/// at the target or left-hand traffic arriving at the source, else the first;
/// 0 at a station without platforms.
pub open spec fn default_arrival_platform(
    seg: Option<GraphEdge>,
    arriving_at_target: bool,
    platform_count: int,
    handedness: TrackHandedness,
) -> int {
    if platform_count == 0 {
        0
    } else {
        let configured = match seg {
            Some(s) => if arriving_at_target { s.default_platform_target } else { s.default_platform_source },
            None => None,
        };
        match configured {
            Some(p) => p as int,
            None => if (handedness == TrackHandedness::RightHand) == arriving_at_target {
                platform_count - 1
            } else {
                0
            },
        }
    }
}

/// The segment joins the two nodes, either way round.
pub open spec fn joins(e: GraphEdge, a: usize, b: usize) -> bool {
    (e.source == a && e.target == b) || (e.source == b && e.target == a)
}

/// The tracks after toggling: two tracks (forward, backward) for a single
/// track, else one bidirectional track.
pub open spec fn toggled_tracks(ts: Seq<Track>) -> Seq<Track> {
    if ts.len() == 1 {
        seq![Track { direction: TrackDirection::Forward }, Track { direction: TrackDirection::Backward }]
    } else {
        seq![Track { direction: TrackDirection::Bidirectional }]
    }
}

/// The segments joining the two nodes among the first `n`, with the number
/// of tracks each gets.
pub open spec fn toggled_upto(edges: Seq<GraphEdge>, a: usize, b: usize, n: int) -> Seq<(usize, usize)>
    decreases n,
{
    if n <= 0 {
        Seq::empty()
    } else {
        let prev = toggled_upto(edges, a, b, n - 1);
        if joins(edges[n - 1], a, b) {
            prev.push(((n - 1) as usize, toggled_tracks(edges[n - 1].tracks@).len() as usize))
        } else {
            prev
        }
    }
}

impl RouteGraph {
    /// The first track of a segment that may be used in the direction, or 0.
    pub fn select_track_for_direction(&self, edge_idx: usize, traveling_backward: bool) -> (r: usize)
        ensures
            r == (if edge_idx < self.edges@.len() { first_track_for(self.edges@[edge_idx as int].tracks@, traveling_backward, 0) } else { 0 }),
    {
        if edge_idx >= self.edges.len() {
            return 0;
        }
        let tracks = &self.edges[edge_idx].tracks;
        let mut i: usize = 0;
        while i < tracks.len()
            invariant
                edge_idx < self.edges@.len(),
                tracks@ == self.edges@[edge_idx as int].tracks@,
                i <= tracks@.len(),
                first_track_for(tracks@, traveling_backward, 0) == first_track_for(tracks@, traveling_backward, i as int),
            decreases tracks@.len() - i,
        {
            if allows(tracks[i].direction, !traveling_backward) {
                return i;
            }
            i = i + 1;
        }
        0
    }

    /// The default platform for arriving over a segment (see `default_arrival_platform`).
    pub fn get_default_platform_for_arrival(
        &self,
        edge_idx: usize,
        arriving_at_target: bool,
        platform_count: usize,
        handedness: TrackHandedness,
    ) -> (r: usize)
        ensures
            r == default_arrival_platform(
                if edge_idx < self.edges@.len() { Some(self.edges@[edge_idx as int]) } else { None },
                arriving_at_target,
                platform_count as int,
                handedness,
            ),
    {
        if platform_count == 0 {
            return 0;
        }
        let configured = if edge_idx < self.edges.len() {
            if arriving_at_target { self.edges[edge_idx].default_platform_target } else { self.edges[edge_idx].default_platform_source }
        } else {
            None
        };
        if let Some(p) = configured {
            return p;
        }
        match (handedness, arriving_at_target) {
            (TrackHandedness::RightHand, true) | (TrackHandedness::LeftHand, false) => platform_count - 1,
            (TrackHandedness::RightHand, false) | (TrackHandedness::LeftHand, true) => 0,
        }
    }

    /// Toggle every segment joining the two nodes between single and double
    /// track (its distance and default platforms are cleared), returning each
    /// toggled segment with its new number of tracks; nothing when either
    /// node is unknown.
    pub fn toggle_segment_double_track(&mut self, node1: Option<usize>, node2: Option<usize>) -> (r: Vec<(usize, usize)>)
        ensures
            final(self).node_count == old(self).node_count,
            final(self).junctions == old(self).junctions,
            final(self).edges@.len() == old(self).edges@.len(),
            match (node1, node2) {
                (Some(a), Some(b)) => {
                    &&& r@ == toggled_upto(old(self).edges@, a, b, old(self).edges@.len() as int)
                    &&& forall|e: int| 0 <= e < old(self).edges@.len() ==> {
                        let o = #[trigger] old(self).edges@[e];
                        let f = final(self).edges@[e];
                        &&& f.source == o.source
                        &&& f.target == o.target
                        &&& if joins(o, a, b) {
                            f.tracks@ == toggled_tracks(o.tracks@) && f.default_platform_source is None
                                && f.default_platform_target is None
                        } else {
                            f.tracks@ == o.tracks@ && f.default_platform_source == o.default_platform_source
                                && f.default_platform_target == o.default_platform_target
                        }
                    }
                },
                _ => r@.len() == 0 && final(self).edges@ == old(self).edges@,
            },
    {
        let mut changed: Vec<(usize, usize)> = Vec::new();
        let (a, b) = match (node1, node2) {
            (Some(a), Some(b)) => (a, b),
            _ => {
                return changed;
            },
        };
        let ghost old_edges = self.edges@;
        let mut e: usize = 0;
        while e < self.edges.len()
            invariant
                self.edges@.len() == old_edges.len(),
                self.node_count == old(self).node_count,
                self.junctions == old(self).junctions,
                old_edges == old(self).edges@,
                e <= old_edges.len(),
                changed@ == toggled_upto(old_edges, a, b, e as int),
                forall|k: int| e <= k < old_edges.len() ==> #[trigger] self.edges@[k] == old_edges[k],
                forall|k: int| 0 <= k < e ==> {
                    let o = #[trigger] old_edges[k];
                    let f = self.edges@[k];
                    &&& f.source == o.source
                    &&& f.target == o.target
                    &&& if joins(o, a, b) {
                        f.tracks@ == toggled_tracks(o.tracks@) && f.default_platform_source is None
                            && f.default_platform_target is None
                    } else {
                        f.tracks@ == o.tracks@ && f.default_platform_source == o.default_platform_source
                            && f.default_platform_target == o.default_platform_target
                    }
                },
            decreases old_edges.len() - e,
        {
            let source = self.edges[e].source;
            let target = self.edges[e].target;
            if (source == a && target == b) || (source == b && target == a) {
                let tracks: Vec<Track> = if self.edges[e].tracks.len() == 1 {
                    vec![Track { direction: TrackDirection::Forward }, Track { direction: TrackDirection::Backward }]
                } else {
                    vec![Track { direction: TrackDirection::Bidirectional }]
                };
                let count = tracks.len();
                proof {
                    assert(tracks@ =~= toggled_tracks(old_edges[e as int].tracks@));
                }
                self.edges.set(e, GraphEdge {
                    source,
                    target,
                    tracks,
                    default_platform_source: None,
                    default_platform_target: None,
                });
                changed.push((e, count));
            }
            e = e + 1;
        }
        changed
    }
}

/// The return route of a forward route: its segments in reverse order, each
/// on the first track usable backwards, with origin and destination platforms
/// swapped, the same running time, and the wait time of the forward segment
/// before it (`default_wait_time` for the last).
pub open spec fn return_segment(g: RouteGraph, fwd: Seq<RouteSegment>, default_wait_time: i128, k: int) -> RouteSegment {
    let i = fwd.len() - 1 - k;
    let f = fwd[i];
    RouteSegment {
        edge_index: f.edge_index,
        track_index: (if f.edge_index < g.edges@.len() { first_track_for(g.edges@[f.edge_index as int].tracks@, true, 0) } else { 0 }) as usize,
        origin_platform: f.destination_platform,
        destination_platform: f.origin_platform,
        duration: f.duration,
        wait_time: if i > 0 { fwd[i - 1].wait_time } else { default_wait_time },
    }
}

/// The segments of a route found between two stations: the first carries
/// the whole running time and the last the wait time; each uses the first
/// track usable forward and the default platforms at both ends.
pub open spec fn pathfound_segment(
    g: RouteGraph,
    path: Seq<usize>,
    platform_counts: Seq<usize>,
    travel_time: i128,
    end_wait_time: i128,
    handedness: TrackHandedness,
    k: int,
) -> RouteSegment {
    let e = g.edges@[path[k] as int];
    RouteSegment {
        edge_index: path[k],
        track_index: first_track_for(e.tracks@, false, 0) as usize,
        origin_platform: default_arrival_platform(Some(e), false, platform_counts[e.source as int] as int, handedness) as usize,
        destination_platform: default_arrival_platform(Some(e), true, platform_counts[e.target as int] as int, handedness) as usize,
        duration: if k == 0 { Some(travel_time) } else { None },
        wait_time: if k == path.len() - 1 { end_wait_time } else { 0 },
    }
}

impl RouteGraph {
    /// Build the return route of a forward route (see `return_segment`).
    pub fn generate_return_route(&self, forward_route: &[RouteSegment], default_wait_time: i128) -> (r: Vec<RouteSegment>)
        ensures
            r@.len() == forward_route@.len(),
            forall|k: int| 0 <= k < r@.len() ==> #[trigger] r@[k] == return_segment(*self, forward_route@, default_wait_time, k),
    {
        let mut out: Vec<RouteSegment> = Vec::new();
        let n = forward_route.len();
        let mut k: usize = 0;
        while k < n
            invariant
                n == forward_route@.len(),
                k <= n,
                out@.len() == k,
                forall|q: int| 0 <= q < k ==> #[trigger] out@[q] == return_segment(*self, forward_route@, default_wait_time, q),
            decreases n - k,
        {
            let i = n - 1 - k;
            let f = forward_route[i];
            let track_index = self.select_track_for_direction(f.edge_index, true);
            let wait_time = if i > 0 { forward_route[i - 1].wait_time } else { default_wait_time };
            out.push(RouteSegment {
                edge_index: f.edge_index,
                track_index,
                origin_platform: f.destination_platform,
                destination_platform: f.origin_platform,
                duration: f.duration,
                wait_time,
            });
            k = k + 1;
        }
        out
    }

    /// Route segments for a path found between two stations (see
    /// `pathfound_segment`); `platform_counts` gives each node's number of
    /// platforms (one for a junction).
    pub fn create_pathfound_segments(
        &self,
        path: &[usize],
        platform_counts: &[usize],
        travel_time: i128,
        end_wait_time: i128,
        handedness: TrackHandedness,
    ) -> (r: Vec<RouteSegment>)
        requires
            graph_wf(*self),
            platform_counts@.len() == self.node_count,
            forall|k: int| 0 <= k < path@.len() ==> #[trigger] path@[k] < self.edges@.len(),
        ensures
            r@.len() == path@.len(),
            forall|k: int| 0 <= k < r@.len() ==> #[trigger] r@[k] == pathfound_segment(
                *self,
                path@,
                platform_counts@,
                travel_time,
                end_wait_time,
                handedness,
                k,
            ),
    {
        let mut out: Vec<RouteSegment> = Vec::new();
        let n = path.len();
        let mut k: usize = 0;
        while k < n
            invariant
                graph_wf(*self),
                platform_counts@.len() == self.node_count,
                forall|q: int| 0 <= q < path@.len() ==> #[trigger] path@[q] < self.edges@.len(),
                n == path@.len(),
                k <= n,
                out@.len() == k,
                forall|q: int| 0 <= q < k ==> #[trigger] out@[q] == pathfound_segment(
                    *self,
                    path@,
                    platform_counts@,
                    travel_time,
                    end_wait_time,
                    handedness,
                    q,
                ),
            decreases n - k,
        {
            let e = path[k];
            let track_index = self.select_track_for_direction(e, false);
            let source = self.edges[e].source;
            let target = self.edges[e].target;
            let origin_platform = self.get_default_platform_for_arrival(e, false, platform_counts[source], handedness);
            let destination_platform = self.get_default_platform_for_arrival(e, true, platform_counts[target], handedness);
            let duration = if k == 0 { Some(travel_time) } else { None };
            let wait_time: i128 = if k == n - 1 { end_wait_time } else { 0 };
            out.push(RouteSegment {
                edge_index: e,
                track_index,
                origin_platform,
                destination_platform,
                duration,
                wait_time,
            });
            k = k + 1;
        }
        out
    }
}


/// Node `j` is a junction named `name`.
pub open spec fn junction_named(g: RouteGraph, j: int, name: Seq<char>) -> bool {
    0 <= j < g.junctions@.len() && match g.junctions@[j] {
        Some(junc) => match junc.name {
            Some(n) => n@ == name,
            None => false,
        },
        None => false,
    }
}

/// Node `n` is a station named `name` (`names` holds each node's station
/// name, none for other nodes).
pub open spec fn station_named(names: Seq<Option<String>>, n: usize, name: Seq<char>) -> bool {
    n < names.len() && match names[n as int] {
        Some(s) => s@ == name,
        None => false,
    }
}

/// Segment `e` joins node `j` to a station named `name`.
pub open spec fn edge_to_named(g: RouteGraph, e: int, j: usize, names: Seq<Option<String>>, name: Seq<char>) -> bool {
    0 <= e < g.edges@.len() && {
        let edge = g.edges@[e];
        if edge.source == j {
            station_named(names, edge.target, name)
        } else if edge.target == j {
            station_named(names, edge.source, name)
        } else {
            false
        }
    }
}

/// The first node from `i` on that is a junction named `junction` joined by
/// a segment to a station named `station`.
pub open spec fn first_junction_by_connection(
    g: RouteGraph,
    names: Seq<Option<String>>,
    junction: Seq<char>,
    station: Seq<char>,
    i: int,
) -> Option<usize>
    decreases g.node_count - i,
{
    if i < 0 || i >= g.node_count {
        None
    } else if junction_named(g, i, junction) && exists|e: int| #[trigger] edge_to_named(g, e, i as usize, names, station) {
        Some(i as usize)
    } else {
        first_junction_by_connection(g, names, junction, station, i + 1)
    }
}

fn station_named_exec(names: &[Option<String>], n: usize, name: &str) -> (r: bool)
    ensures
        r == station_named(names@, n, name@),
{
    if n < names.len() {
        match &names[n] {
            Some(s) => str_eq(s.as_str(), name),
            None => false,
        }
    } else {
        false
    }
}

fn junction_named_exec(g: &RouteGraph, j: usize, name: &str) -> (r: bool)
    ensures
        r == junction_named(*g, j as int, name@),
{
    if j < g.junctions.len() {
        match &g.junctions[j] {
            Some(junc) => match &junc.name {
                Some(n) => str_eq(n.as_str(), name),
                None => false,
            },
            None => false,
        }
    } else {
        false
    }
}

/// Find an existing junction named `junction_name` that a segment joins to a
/// station named `connected_station_name`: the first such node, by index.
/// `station_names` holds each node's station name (none for other nodes).
pub fn find_junction_by_connection(
    graph: &RouteGraph,
    station_names: &[Option<String>],
    junction_name: &str,
    connected_station_name: &str,
) -> (r: Option<usize>)
    ensures
        r == first_junction_by_connection(*graph, station_names@, junction_name@, connected_station_name@, 0),
{
    let mut j: usize = 0;
    while j < graph.node_count
        invariant
            j <= graph.node_count,
            first_junction_by_connection(*graph, station_names@, junction_name@, connected_station_name@, 0)
                == first_junction_by_connection(*graph, station_names@, junction_name@, connected_station_name@, j as int),
        decreases graph.node_count - j,
    {
        if junction_named_exec(graph, j, junction_name) {
            let mut e: usize = 0;
            while e < graph.edges.len()
                invariant
                    j < graph.node_count,
                    e <= graph.edges@.len(),
                    junction_named(*graph, j as int, junction_name@),
                    forall|k: int| 0 <= k < e ==> !#[trigger] edge_to_named(*graph, k, j, station_names@, connected_station_name@),
                    first_junction_by_connection(*graph, station_names@, junction_name@, connected_station_name@, 0)
                        == first_junction_by_connection(*graph, station_names@, junction_name@, connected_station_name@, j as int),
                decreases graph.edges@.len() - e,
            {
                let source = graph.edges[e].source;
                let target = graph.edges[e].target;
                let hit = if source == j {
                    station_named_exec(station_names, target, connected_station_name)
                } else if target == j {
                    station_named_exec(station_names, source, connected_station_name)
                } else {
                    false
                };
                if hit {
                    proof {
                        assert(edge_to_named(*graph, e as int, j, station_names@, connected_station_name@));
                        assert((j as int) as usize == j);
                        assert(exists|k: int| #[trigger] edge_to_named(*graph, k, (j as int) as usize, station_names@, connected_station_name@));
                        assert(first_junction_by_connection(*graph, station_names@, junction_name@, connected_station_name@, j as int)
                            == Some(j));
                    }
                    return Some(j);
                }
                e = e + 1;
            }
        }
        j = j + 1;
    }
    None
}


/// The one way through a node with exactly one segment arriving at it and
/// one leaving it: from the far end of the arriving segment to the far end of
/// the leaving one, with the tracks of whichever has more (the arriving one
/// on a tie); nothing for any other node.
pub open spec fn through_connection(g: RouteGraph, node: usize) -> Option<(usize, usize, Seq<Track>)> {
    let all = Seq::new(g.edges@.len() as nat, |e: int| e as usize);
    let incoming = all.filter(|e: usize| g.edges@[e as int].target == node);
    let outgoing = all.filter(|e: usize| g.edges@[e as int].source == node);
    if incoming.len() == 1 && outgoing.len() == 1 {
        let a = g.edges@[incoming[0] as int];
        let b = g.edges@[outgoing[0] as int];
        Some((a.source, b.target, if a.tracks@.len() >= b.tracks@.len() { a.tracks@ } else { b.tracks@ }))
    } else {
        None
    }
}

impl RouteGraph {
    /// The connections a bypass would need if `node` were deleted (see
    /// `through_connection`): at most one, as (from, to, tracks).
    pub fn find_connections_through_station(&self, node: usize) -> (r: Vec<(usize, usize, Vec<Track>)>)
        ensures
            match through_connection(*self, node) {
                None => r@.len() == 0,
                Some(c) => r@.len() == 1 && r@[0].0 == c.0 && r@[0].1 == c.1 && r@[0].2@ == c.2,
            },
    {
        let all_edges = self.get_station_edges(node);
        let ghost all = Seq::new(self.edges@.len() as nat, |e: int| e as usize);
        let ghost out_p = |e: usize| self.edges@[e as int].source == node;
        let ghost in_p = |e: usize| self.edges@[e as int].target == node;
        let n_out = count_leaving(self, node);
        let mut connections: Vec<(usize, usize, Vec<Track>)> = Vec::new();
        proof {
            assert(all_edges@ == all.filter(out_p) + all.filter(in_p));
        }
        if all_edges.len() == 2 && n_out == 1 {
            let out_e = all_edges[0];
            let in_e = all_edges[1];
            proof {
                assert(all.filter(out_p).len() == 1);
                assert(all.filter(in_p).len() == 1);
                assert(all_edges@[0] == all.filter(out_p)[0]);
                assert(all_edges@[1] == all.filter(in_p)[0]);
                all.lemma_filter_pred(in_p, 0);
                all.lemma_filter_pred(out_p, 0);
                lemma_index_filter_bound(self.edges@.len() as nat, in_p, 0);
                lemma_index_filter_bound(self.edges@.len() as nat, out_p, 0);
            }
            let a = &self.edges[in_e];
            let b = &self.edges[out_e];
            let tracks = if a.tracks.len() >= b.tracks.len() { a.tracks.clone() } else { b.tracks.clone() };
            connections.push((a.source, b.target, tracks));
        }
        connections
    }
}

/// The indices below `n` that a filter keeps are below `n`.
proof fn lemma_index_filter_bound(n: nat, p: spec_fn(usize) -> bool, i: int)
    requires
        0 <= i < Seq::new(n, |e: int| e as usize).filter(p).len(),
    ensures
        Seq::new(n, |e: int| e as usize).filter(p)[i] < n,
    decreases n,
{
    reveal(Seq::filter);
    let all = Seq::new(n, |e: int| e as usize);
    if n > 0 {
        let prev = Seq::new((n - 1) as nat, |e: int| e as usize);
        assert(all.drop_last() =~= prev);
        if i < prev.filter(p).len() {
            lemma_index_filter_bound((n - 1) as nat, p, i);
        }
    }
}

/// How many segments leave `node`.
fn count_leaving(g: &RouteGraph, node: usize) -> (r: usize)
    ensures
        r == Seq::new(g.edges@.len() as nat, |e: int| e as usize).filter(|e: usize| g.edges@[e as int].source == node).len(),
{
    let ghost all = Seq::new(g.edges@.len() as nat, |e: int| e as usize);
    let ghost out_p = |e: usize| g.edges@[e as int].source == node;
    let mut n: usize = 0;
    let mut k: usize = 0;
    while k < g.edges.len()
        invariant
            all == Seq::new(g.edges@.len() as nat, |e: int| e as usize),
            out_p == (|e: usize| g.edges@[e as int].source == node),
            k <= g.edges@.len(),
            n == all.take(k as int).filter(out_p).len(),
            n <= k,
        decreases g.edges@.len() - k,
    {
        proof {
            let t = all.take(k + 1);
            assert(t.drop_last() =~= all.take(k as int));
            assert(t.last() == k);
            reveal(Seq::filter);
        }
        if g.edges[k].source == node {
            n = n + 1;
        }
        k = k + 1;
    }
    assert(all.take(g.edges@.len() as int) =~= all);
    n
}


impl RouteGraph {
    /// Add a junction node; returns its index.
    pub fn add_junction(&mut self, junction: Junction) -> (r: usize)
        requires
            graph_wf(*old(self)),
            old(self).node_count < usize::MAX,
        ensures
            r == old(self).node_count,
            final(self).node_count == old(self).node_count + 1,
            final(self).junctions@ == old(self).junctions@.push(Some(junction)),
            final(self).edges@ == old(self).edges@,
            graph_wf(*final(self)),
    {
        let idx = self.node_count;
        self.junctions.push(Some(junction));
        self.node_count = self.node_count + 1;
        idx
    }

    /// Add a segment from `from` to `to` with the given tracks (no default
    /// platforms); returns its index.
    pub fn add_track(&mut self, from: usize, to: usize, tracks: Vec<Track>) -> (r: usize)
        ensures
            r == old(self).edges@.len(),
            final(self).edges@.len() == old(self).edges@.len() + 1,
            final(self).edges@.take(r as int) == old(self).edges@,
            final(self).edges@[r as int].source == from,
            final(self).edges@[r as int].target == to,
            final(self).edges@[r as int].tracks@ == tracks@,
            final(self).edges@[r as int].default_platform_source is None,
            final(self).edges@[r as int].default_platform_target is None,
            final(self).node_count == old(self).node_count,
            final(self).junctions@ == old(self).junctions@,
    {
        let idx = self.edges.len();
        self.edges.push(GraphEdge { source: from, target: to, tracks, default_platform_source: None, default_platform_target: None });
        proof {
            assert(self.edges@.take(idx as int) =~= old(self).edges@);
        }
        idx
    }

    /// The segment with index `e`, if the network has it.
    pub fn get_track(&self, e: usize) -> (r: Option<&GraphEdge>)
        ensures
            e < self.edges@.len() ==> r == Some(&self.edges@[e as int]),
            e >= self.edges@.len() ==> r is None,
    {
        if e < self.edges.len() { Some(&self.edges[e]) } else { None }
    }

    /// The end nodes (source, target) of segment `e`, if the network has it.
    pub fn get_track_endpoints(&self, e: usize) -> (r: Option<(usize, usize)>)
        ensures
            r == (if e < self.edges@.len() { Some((self.edges@[e as int].source, self.edges@[e as int].target)) } else { None }),
    {
        if e < self.edges.len() { Some((self.edges[e].source, self.edges[e].target)) } else { None }
    }

    /// Whether node `n` is a junction.
    pub fn is_junction(&self, n: usize) -> (r: bool)
        ensures
            r == (n < self.junctions@.len() && self.junctions@[n as int] is Some),
    {
        n < self.junctions.len() && self.junctions[n].is_some()
    }

    /// The junction at node `n`, if it is one.
    pub fn get_junction(&self, n: usize) -> (r: Option<&Junction>)
        ensures
            r == (if n < self.junctions@.len() {
                match self.junctions@[n as int] {
                    Some(j) => Some(&j),
                    None => None,
                }
            } else {
                None
            }),
    {
        if n < self.junctions.len() {
            match &self.junctions[n] {
                Some(j) => Some(j),
                None => None,
            }
        } else {
            None
        }
    }
}

} // verus!
