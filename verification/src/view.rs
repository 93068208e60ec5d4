//! Views of the network: a named part of it, given by its two end nodes and
//! optionally the segments followed between them; and the "main line" a
//! view shows by default, the longest chain of distinct nodes joined by
//! segments.

use vstd::prelude::*;
use crate::routing::{RouteGraph, graph_wf, arrivals, is_route_between, route_between, is_route, state_after, moves_to, nodes_in_search_order, joins, lemma_distinct_bounded};
use std::collections::{HashMap, HashSet};
use crate::line_graph::edge_ends;
use crate::text::{decimal_spec, push_decimal};

verus! {

/// A view: its name, the end nodes of the part of the network it shows (the
/// whole network when none), and the segments it follows between them (a
/// route found between the end nodes when none).
pub struct GraphView {
    pub name: String,
    pub station_range: Option<(usize, usize)>,
    pub edge_path: Option<Vec<usize>>,
}

/// Following the first `n` segments of `edges` from node `from`: the nodes
/// passed, starting with `from`; `None` when a segment is not in the network
/// or does not touch the node reached.
pub open spec fn follow_edges(g: RouteGraph, edges: Seq<usize>, from: usize, n: int) -> Option<Seq<usize>>
    decreases n,
{
    if n <= 0 {
        Some(seq![from])
    } else {
        match follow_edges(g, edges, from, n - 1) {
            None => None,
            Some(ns) => match edge_ends(g, edges[n - 1]) {
                None => None,
                Some(ends) => if ends.0 == ns.last() {
                    Some(ns.push(ends.1))
                } else if ends.1 == ns.last() {
                    Some(ns.push(ends.0))
                } else {
                    None
                },
            },
        }
    }
}

/// A walk that failed stays failed.
proof fn lemma_follow_stays_failed(g: RouteGraph, edges: Seq<usize>, from: usize, n: int, m: int)
    requires
        0 <= n <= m,
        follow_edges(g, edges, from, n) is None,
    ensures
        follow_edges(g, edges, from, m) is None,
    decreases m - n,
{
    if n < m {
        lemma_follow_stays_failed(g, edges, from, n, m - 1);
    }
}

/// Following the segments of a route passes exactly the route's nodes.
proof fn lemma_follow_route(g: RouteGraph, from: usize, path: Seq<usize>, nodes: Seq<usize>, n: int)
    requires
        is_route(g, (from, None), path, nodes),
        0 <= n <= path.len(),
    ensures
        follow_edges(g, path, from, n) == Some(seq![from] + nodes.take(n)),
    decreases n,
{
    if n > 0 {
        lemma_follow_route(g, from, path, nodes, n - 1);
        let prev = seq![from] + nodes.take(n - 1);
        assert(prev.last() == state_after((from, None), path, nodes, n - 1).0);
        assert(moves_to(g, state_after((from, None), path, nodes, n - 1), path[n - 1], nodes[n - 1]));
        assert(seq![from] + nodes.take(n) =~= prev.push(nodes[n - 1]));
    }
}

/// What a view shows as its path (`r`): nothing for a view of the whole
/// network; the nodes passed following its stored segments from its first
/// end node; without stored segments, the nodes of a shortest route between
/// its end nodes, when there is one and they differ.
pub open spec fn view_path_ok(g: RouteGraph, v: GraphView, r: Option<Seq<usize>>) -> bool {
    match v.station_range {
        None => r is None,
        Some(range) => match v.edge_path {
            Some(ep) => r == follow_edges(g, ep@, range.0, ep@.len() as int),
            None => {
                &&& (r is Some <==> (range.0 != range.1 && exists|p: Seq<usize>| #[trigger] is_route_between(g, range.0, range.1, p)))
                &&& (r matches Some(ns) ==> exists|p: Seq<usize>| #[trigger] is_route_between(g, range.0, range.1, p)
                    && follow_edges(g, p, range.0, p.len() as int) == Some(ns)
                    && forall|p2: Seq<usize>| #[trigger] is_route_between(g, range.0, range.1, p2) ==> p.len() <= p2.len())
            },
        },
    }
}

/// The view of an optional vector.
pub open spec fn opt_view(r: Option<Vec<usize>>) -> Option<Seq<usize>> {
    match r {
        Some(v) => Some(v@),
        None => None,
    }
}

fn follow_edges_exec(g: &RouteGraph, edges: &Vec<usize>, from: usize) -> (r: Option<Vec<usize>>)
    ensures
        opt_view(r) == follow_edges(*g, edges@, from, edges@.len() as int),
{
    let mut path: Vec<usize> = Vec::new();
    path.push(from);
    let mut cur = from;
    let mut i: usize = 0;
    proof {
        assert(path@ =~= seq![from]);
    }
    while i < edges.len()
        invariant
            i <= edges@.len(),
            follow_edges(*g, edges@, from, i as int) == Some(path@),
            path@.len() > 0,
            cur == path@.last(),
        decreases edges@.len() - i,
    {
        let next = match edge_ends_exec(g, edges[i]) {
            None => {
                proof {
                    lemma_follow_stays_failed(*g, edges@, from, i as int + 1, edges@.len() as int);
                }
                return None;
            },
            Some(ends) => if ends.0 == cur {
                ends.1
            } else if ends.1 == cur {
                ends.0
            } else {
                proof {
                    lemma_follow_stays_failed(*g, edges@, from, i as int + 1, edges@.len() as int);
                }
                return None;
            },
        };
        path.push(next);
        cur = next;
        i = i + 1;
    }
    Some(path)
}

fn edge_ends_exec(g: &RouteGraph, e: usize) -> (r: Option<(usize, usize)>)
    ensures
        r == edge_ends(*g, e),
{
    if e < g.edges.len() {
        Some((g.edges[e].source, g.edges[e].target))
    } else {
        None
    }
}

/// The start node and the node reached scanning the first `n` (at least one)
/// segments of an edge path for a view: the first segment runs from its
/// source to its target, each later one must touch the node reached; or the
/// message of the first problem met.
pub open spec fn scan_edge_path(g: RouteGraph, ep: Seq<usize>, n: int) -> Result<(usize, usize), Seq<char>>
    decreases n,
{
    if n <= 1 {
        match edge_ends(g, ep[0]) {
            None => Err(missing_edge_message(ep[0])),
            Some(ends) => Ok(ends),
        }
    } else {
        match scan_edge_path(g, ep, n - 1) {
            Err(m) => Err(m),
            Ok(reached) => match edge_ends(g, ep[n - 1]) {
                None => Err(missing_edge_message(ep[n - 1])),
                Some(ends) => if ends.0 == reached.1 {
                    Ok((reached.0, ends.1))
                } else if ends.1 == reached.1 {
                    Ok((reached.0, ends.0))
                } else {
                    Err("Edge path is not continuous"@)
                },
            },
        }
    }
}

/// The message for a segment the network does not have.
pub open spec fn missing_edge_message(e: usize) -> Seq<char> {
    "Edge "@ + decimal_spec(e as nat) + " does not exist"@
}

/// A view result holds the view with the given name, end nodes and stored segments.
pub open spec fn view_is(r: Result<GraphView, String>, name: Seq<char>, range: (usize, usize), ep: Option<Seq<usize>>) -> bool {
    &&& r matches Ok(v)
    &&& r->Ok_0.name@ == name
    &&& r->Ok_0.station_range == Some(range)
    &&& opt_view(r->Ok_0.edge_path) == ep
}

/// A result is the error with the given message.
pub open spec fn error_is(r: Result<GraphView, String>, message: Seq<char>) -> bool {
    r matches Err(m) && m@ == message
}

fn missing_edge_error(e: usize) -> (r: String)
    ensures
        r@ == missing_edge_message(e),
{
    let mut out = String::new();
    out.append("Edge ");
    push_decimal(&mut out, e as u64);
    out.append(" does not exist");
    out
}

impl GraphView {
    /// A view following a given chain of segments (a line's route, say): its
    /// end nodes are where the chain starts (the first segment's source) and
    /// ends (see `scan_edge_path`). An empty chain, a segment the network
    /// does not have, or a segment that does not touch the node reached is an error.
    pub fn from_edge_path(name: String, edge_path: Vec<usize>, graph: &RouteGraph) -> (r: Result<GraphView, String>)
        ensures
            edge_path@.len() == 0 ==> error_is(r, "Edge path cannot be empty"@),
            edge_path@.len() > 0 ==> match scan_edge_path(*graph, edge_path@, edge_path@.len() as int) {
                Err(m) => error_is(r, m),
                Ok(range) => view_is(r, name@, range, Some(edge_path@)),
            },
    {
        if edge_path.len() == 0 {
            return Err(String::from_str("Edge path cannot be empty"));
        }
        let mut from: usize = 0;
        let mut current: usize = 0;
        let mut i: usize = 0;
        while i < edge_path.len()
            invariant
                0 < edge_path@.len(),
                i <= edge_path@.len(),
                i > 0 ==> scan_edge_path(*graph, edge_path@, i as int) == Ok::<(usize, usize), Seq<char>>((from, current)),
            decreases edge_path@.len() - i,
        {
            let e = edge_path[i];
            match edge_ends_exec(graph, e) {
                None => {
                    proof {
                        lemma_scan_stays_failed(*graph, edge_path@, i as int + 1, edge_path@.len() as int);
                    }
                    return Err(missing_edge_error(e));
                },
                Some(ends) => {
                    if i == 0 {
                        from = ends.0;
                        current = ends.1;
                    } else if ends.0 == current {
                        current = ends.1;
                    } else if ends.1 == current {
                        current = ends.0;
                    } else {
                        proof {
                            lemma_scan_stays_failed(*graph, edge_path@, i as int + 1, edge_path@.len() as int);
                        }
                        return Err(String::from_str("Edge path is not continuous"));
                    }
                },
            }
            i = i + 1;
        }
        Ok(GraphView { name, station_range: Some((from, current)), edge_path: Some(edge_path) })
    }

    /// A view of the part of the network between two nodes; an error when no
    /// route joins them (or they are the same node).
    pub fn from_station_range(name: String, from: usize, to: usize, graph: &RouteGraph) -> (r: Result<GraphView, String>)
        requires
            graph_wf(*graph),
        ensures
            (from != to && exists|p: Seq<usize>| #[trigger] is_route_between(*graph, from, to, p))
                ==> view_is(r, name@, (from, to), None),
            !(from != to && exists|p: Seq<usize>| #[trigger] is_route_between(*graph, from, to, p))
                ==> error_is(r, "No path exists between the selected stations"@),
    {
        match graph.find_path_between_nodes(from, to) {
            None => Err(String::from_str("No path exists between the selected stations")),
            Some(p) => {
                proof {
                    assert(is_route_between(*graph, from, to, p@));
                }
                Ok(GraphView { name, station_range: Some((from, to)), edge_path: None })
            },
        }
    }

    /// The nodes this view shows, in order (see `view_path_ok`).
    pub fn calculate_path(&self, graph: &RouteGraph) -> (r: Option<Vec<usize>>)
        requires
            graph_wf(*graph),
        ensures
            view_path_ok(*graph, *self, opt_view(r)),
    {
        let (from, to) = match self.station_range {
            None => return None,
            Some(range) => range,
        };
        match &self.edge_path {
            Some(ep) => follow_edges_exec(graph, ep, from),
            None => match graph.find_path_between_nodes(from, to) {
                None => None,
                Some(p) => {
                    let ghost nodes = choose|nodes: Seq<usize>| route_between(*graph, from, to, p@, nodes);
                    proof {
                        lemma_follow_route(*graph, from, p@, nodes, p@.len() as int);
                    }
                    let r = follow_edges_exec(graph, &p, from);
                    proof {
                        assert(is_route_between(*graph, from, to, p@));
                    }
                    r
                },
            },
        }
    }

    /// Rename this view.
    pub fn set_name(&mut self, new_name: String)
        ensures
            final(self).name@ == new_name@,
            final(self).station_range == old(self).station_range,
            opt_view(final(self).edge_path) == opt_view(old(self).edge_path),
    {
        self.name = new_name;
    }
}

/// A scan that failed stays failed.
proof fn lemma_scan_stays_failed(g: RouteGraph, ep: Seq<usize>, n: int, m: int)
    requires
        1 <= n <= m,
        scan_edge_path(g, ep, n) is Err,
    ensures
        scan_edge_path(g, ep, m) == scan_edge_path(g, ep, n),
    decreases m - n,
{
    if n < m {
        lemma_scan_stays_failed(g, ep, n, m - 1);
    }
}


/// The nodes a view shows as a set: those of its path, or every node of
/// the network when it has none.
pub open spec fn visible_set(g: RouteGraph, path: Option<Seq<usize>>) -> Set<usize> {
    match path {
        Some(ns) => ns.to_set(),
        None => Set::new(|n: usize| n < g.node_count),
    }
}

/// The nodes of the network, in order, on a view's path.
pub open spec fn existing_nodes(g: RouteGraph) -> spec_fn(usize) -> bool {
    |n: usize| n < g.node_count
}

/// The order a view draws its nodes in: its path, or the network's nodes in
/// search order for a view of the whole network.
pub open spec fn display_order_ok(g: RouteGraph, path: Option<Seq<usize>>, order: Seq<usize>) -> bool {
    match path {
        Some(ns) => order == ns,
        None => nodes_in_search_order(g, order),
    }
}

/// Node `nodes[i]` (for each `i < n` naming a node of the network) maps to
/// its position `i`; a later position wins.
pub open spec fn display_index_map(g: RouteGraph, nodes: Seq<usize>, n: int) -> Map<usize, usize>
    decreases n,
{
    if n <= 0 {
        Map::empty()
    } else {
        let m = display_index_map(g, nodes, n - 1);
        if nodes[n - 1] < g.node_count {
            m.insert(nodes[n - 1], (n - 1) as usize)
        } else {
            m
        }
    }
}

impl GraphView {
    /// The set of nodes this view shows (see `visible_set`).
    pub fn visible_stations(&self, graph: &RouteGraph) -> (r: HashSet<usize>)
        requires
            graph_wf(*graph),
        ensures
            exists|p: Option<Seq<usize>>| #[trigger] view_path_ok(*graph, *self, p) && r@ == visible_set(*graph, p),
    {
        broadcast use vstd::std_specs::hash::group_hash_axioms;
        let path = self.calculate_path(graph);
        let mut out: HashSet<usize> = HashSet::new();
        match &path {
            Some(ns) => {
                let mut i: usize = 0;
                while i < ns.len()
                    invariant
                        i <= ns@.len(),
                        out@ == ns@.take(i as int).to_set(),
                    decreases ns@.len() - i,
                {
                    proof {
                        assert(ns@.take(i + 1) =~= ns@.take(i as int).push(ns@[i as int]));
                    }
                    out.insert(ns[i]);
                    proof {
                        ns@.take(i as int).lemma_push_to_set_commute(ns@[i as int]);
                    }
                    i = i + 1;
                }
                proof {
                    assert(ns@.take(ns@.len() as int) =~= ns@);
                }
            },
            None => {
                let mut n: usize = 0;
                while n < graph.node_count
                    invariant
                        n <= graph.node_count,
                        out@ == Set::new(|x: usize| x < n),
                    decreases graph.node_count - n,
                {
                    out.insert(n);
                    proof {
                        assert(Set::new(|x: usize| x < n + 1) =~= Set::new(|x: usize| x < n).insert(n));
                    }
                    n = n + 1;
                }
            },
        }
        proof {
            assert(view_path_ok(*graph, *self, opt_view(path)));
            assert(out@ =~= visible_set(*graph, opt_view(path)));
        }
        out
    }

    /// The nodes to draw for this view, in order: those of its path that are
    /// nodes of the network, or, for a view of the whole network, every node
    /// in the order of `RouteGraph::get_all_nodes_ordered`.
    pub fn get_nodes_for_display(&self, graph: &RouteGraph) -> (r: Vec<usize>)
        requires
            graph_wf(*graph),
        ensures
            exists|p: Option<Seq<usize>>| #[trigger] view_path_ok(*graph, *self, p) && match p {
                Some(ns) => r@ == ns.filter(existing_nodes(*graph)),
                None => nodes_in_search_order(*graph, r@),
            },
    {
        let path = self.calculate_path(graph);
        let ghost pred = existing_nodes(*graph);
        match &path {
            Some(ns) => {
                let mut out: Vec<usize> = Vec::new();
                let mut i: usize = 0;
                while i < ns.len()
                    invariant
                        pred == existing_nodes(*graph),
                        i <= ns@.len(),
                        out@ == ns@.take(i as int).filter(pred),
                    decreases ns@.len() - i,
                {
                    proof {
                        let tk = ns@.take(i + 1);
                        assert(tk.drop_last() =~= ns@.take(i as int));
                        reveal(Seq::filter);
                    }
                    if ns[i] < graph.node_count {
                        out.push(ns[i]);
                    }
                    i = i + 1;
                }
                proof {
                    assert(ns@.take(ns@.len() as int) =~= ns@);
                    assert(view_path_ok(*graph, *self, opt_view(path)));
                }
                out
            },
            None => {
                let out = graph.get_all_nodes_ordered();
                proof {
                    assert(view_path_ok(*graph, *self, opt_view(path)));
                }
                out
            },
        }
    }

    /// Where each node is drawn in this view: node `n` maps to its position
    /// in `get_nodes_for_display`'s order (the last one, on a path that
    /// passes it twice). Nodes are numbered as the network numbers them.
    pub fn build_station_index_map(&self, graph: &RouteGraph) -> (r: HashMap<usize, usize>)
        requires
            graph_wf(*graph),
        ensures
            exists|p: Option<Seq<usize>>, order: Seq<usize>|
                #![trigger view_path_ok(*graph, *self, p), display_order_ok(*graph, p, order)]
                view_path_ok(*graph, *self, p) && display_order_ok(*graph, p, order)
                && r@ == display_index_map(*graph, order, order.len() as int),
    {
        broadcast use vstd::std_specs::hash::group_hash_axioms;
        let path = self.calculate_path(graph);
        let order = match &path {
            Some(ns) => ns.clone(),
            None => graph.get_all_nodes_ordered(),
        };
        let mut out: HashMap<usize, usize> = HashMap::new();
        let mut i: usize = 0;
        while i < order.len()
            invariant
                i <= order@.len(),
                out@ == display_index_map(*graph, order@, i as int),
            decreases order@.len() - i,
        {
            if order[i] < graph.node_count {
                out.insert(order[i], i);
            }
            i = i + 1;
        }
        proof {
            assert(view_path_ok(*graph, *self, opt_view(path)));
            assert(display_order_ok(*graph, opt_view(path), order@));
        }
        out
    }
}


/// Some segment joins the two nodes, either way round.
pub open spec fn adjacent(g: RouteGraph, a: usize, b: usize) -> bool {
    exists|e: int| 0 <= e < g.edges@.len() && #[trigger] joins(g.edges@[e], a, b)
}

/// Nodes `i` and `i + 1` of `p` are joined by a segment.
pub open spec fn linked(g: RouteGraph, p: Seq<usize>, i: int) -> bool {
    adjacent(g, p[i], p[i + 1])
}

/// A chain: distinct nodes of the network, each joined to the next by a segment.
pub open spec fn simple_chain(g: RouteGraph, p: Seq<usize>) -> bool {
    &&& p.no_duplicates()
    &&& forall|i: int| 0 <= i < p.len() ==> #[trigger] p[i] < g.node_count
    &&& forall|i: int| 0 <= i < p.len() - 1 ==> #[trigger] linked(g, p, i)
}

/// `p` starts with `q`.
pub open spec fn extends(p: Seq<usize>, q: Seq<usize>) -> bool {
    q.len() <= p.len() && p.take(q.len() as int) == q
}

/// `best` is a longest chain of the network (empty when there is no node).
pub open spec fn longest_chain(g: RouteGraph, best: Seq<usize>) -> bool {
    &&& best.len() == 0 || simple_chain(g, best)
    &&& forall|p: Seq<usize>| #[trigger] simple_chain(g, p) ==> p.len() <= best.len()
}

/// Some segment with index below `e` joins `cur` to `nb`.
pub open spec fn joined_before(g: RouteGraph, cur: usize, nb: usize, e: int) -> bool {
    exists|e2: int| 0 <= e2 < e && e2 < g.edges@.len() && #[trigger] joins(g.edges@[e2], cur, nb)
}

/// No chain that starts with `q` is longer than `bound`.
pub open spec fn chains_bounded(g: RouteGraph, q: Seq<usize>, bound: int) -> bool {
    forall|p: Seq<usize>| #[trigger] simple_chain(g, p) && extends(p, q) ==> p.len() <= bound
}

/// A chain holds at most as many nodes as the network.
proof fn lemma_chain_len(g: RouteGraph, p: Seq<usize>)
    requires
        simple_chain(g, p),
    ensures
        p.len() <= g.node_count,
{
    let codes = p.map_values(|x: usize| x as int);
    assert forall|i: int| 0 <= i < codes.len() implies 0 <= #[trigger] codes[i] < g.node_count by {
        assert(p[i] < g.node_count);
    }
    assert(codes.no_duplicates()) by {
        assert forall|i: int, j: int| 0 <= i < codes.len() && 0 <= j < codes.len() && i != j implies codes[i] != codes[j] by {
            assert(p[i] != p[j]);
        }
    }
    lemma_distinct_bounded(codes, g.node_count as int);
}

/// Extending a chain by a node joined to its end, and not on it, gives a chain.
proof fn lemma_chain_push(g: RouteGraph, q: Seq<usize>, nb: usize)
    requires
        simple_chain(g, q),
        q.len() > 0,
        adjacent(g, q.last(), nb),
        nb < g.node_count,
        !q.contains(nb),
    ensures
        simple_chain(g, q.push(nb)),
{
    let p = q.push(nb);
    assert forall|i: int| 0 <= i < p.len() - 1 implies #[trigger] linked(g, p, i) by {
        if i < q.len() - 1 {
            assert(linked(g, q, i));
        }
    }
    assert forall|i: int, j: int| 0 <= i < j < p.len() implies p[i] != p[j] by {
        if j == q.len() {
            assert(q[i] == p[i]);
        }
    }
}

/// A chain that starts with `q` and goes on starts with `q` and its next node,
/// which is joined to the end of `q` and not on `q`.
proof fn lemma_chain_step(g: RouteGraph, p: Seq<usize>, q: Seq<usize>)
    requires
        simple_chain(g, p),
        extends(p, q),
        0 < q.len() < p.len(),
    ensures
        extends(p, q.push(p[q.len() as int])),
        adjacent(g, q.last(), p[q.len() as int]),
        !q.contains(p[q.len() as int]),
{
    let k = q.len() as int;
    assert(p.take(k + 1) =~= p.take(k).push(p[k]));
    assert(linked(g, p, k - 1));
    assert(q.last() == p[k - 1]);
    if q.contains(p[k]) {
        let i = choose|i: int| 0 <= i < q.len() && q[i] == p[k];
        assert(p[i] == q[i]);
    }
}

/// The node segment `e` leads to from `cur`, if it touches `cur`.
pub open spec fn neighbor_via(g: RouteGraph, e: int, cur: usize) -> Option<usize> {
    if g.edges@[e].source == cur {
        Some(g.edges@[e].target)
    } else if g.edges@[e].target == cur {
        Some(g.edges@[e].source)
    } else {
        None
    }
}

/// Depth-first search for a longest chain starting with `path` and `current`.
fn dfs_longest_path(g: &RouteGraph, current: usize, visited: &mut Vec<bool>, path: &mut Vec<usize>, longest: &mut Vec<usize>)
    requires
        graph_wf(*g),
        current < g.node_count,
        old(visited)@.len() == g.node_count,
        forall|n: int| 0 <= n < g.node_count ==> (#[trigger] old(visited)@[n] <==> old(path)@.contains(n as usize)),
        simple_chain(*g, old(path)@.push(current)),
        old(longest)@.len() == 0 || simple_chain(*g, old(longest)@),
    ensures
        final(visited)@ == old(visited)@,
        final(path)@ == old(path)@,
        final(longest)@.len() == 0 || simple_chain(*g, final(longest)@),
        final(longest)@.len() >= old(longest)@.len(),
        chains_bounded(*g, old(path)@.push(current), final(longest)@.len() as int),
    decreases g.node_count - old(path)@.len(),
{
    let ghost q = path@.push(current);
    let ghost v0 = visited@;
    let ghost p0 = path@;
    proof {
        lemma_chain_len(*g, q);
        assert(!p0.contains(current)) by {
            if p0.contains(current) {
                let i = choose|i: int| 0 <= i < p0.len() && p0[i] == current;
                assert(q[i] == q[q.len() - 1]);
            }
        }
    }
    let ghost l0 = longest@.len();
    visited.set(current, true);
    path.push(current);
    proof {
        assert forall|n: int| 0 <= n < g.node_count implies (#[trigger] visited@[n] <==> q.contains(n as usize)) by {
            if n == current as int {
                assert(q[q.len() - 1] == current);
            } else {
                if q.contains(n as usize) {
                    let i = choose|i: int| 0 <= i < q.len() && q[i] == n as usize;
                    assert(p0[i] == n as usize);
                }
                if p0.contains(n as usize) {
                    let i = choose|i: int| 0 <= i < p0.len() && p0[i] == n as usize;
                    assert(q[i] == n as usize);
                }
            }
        }
    }
    if path.len() > longest.len() {
        *longest = path.clone();
    }
    let mut e: usize = 0;
    while e < g.edges.len()
        invariant
            graph_wf(*g),
            current < g.node_count,
            path@ == q,
            q == p0.push(current),
            simple_chain(*g, q),
            visited@.len() == g.node_count,
            forall|n: int| 0 <= n < g.node_count ==> (#[trigger] visited@[n] <==> q.contains(n as usize)),
            longest@.len() == 0 || simple_chain(*g, longest@),
            longest@.len() >= q.len(),
            longest@.len() >= l0,
            p0 == old(path)@,
            e <= g.edges@.len(),
            forall|nb: usize| #[trigger] joined_before(*g, current, nb, e as int) && !q.contains(nb)
                ==> chains_bounded(*g, q.push(nb), longest@.len() as int),
        decreases g.edges@.len() - e,
    {
        let source = g.edges[e].source;
        let target = g.edges[e].target;
        let next: Option<usize> = if source == current {
            Some(target)
        } else if target == current {
            Some(source)
        } else {
            None
        };
        let ghost len_before = longest@.len();
        match next {
            Some(nb) => {
                if !visited[nb] {
                    proof {
                        assert(joins(g.edges@[e as int], current, nb));
                        assert(adjacent(*g, current, nb));
                        assert(q.last() == current);
                        lemma_chain_push(*g, q, nb);
                        lemma_chain_len(*g, q.push(nb));
                    }
                    dfs_longest_path(g, nb, visited, path, longest);
                }
            },
            None => {},
        }
        proof {
            assert forall|nb: usize| #[trigger] joined_before(*g, current, nb, e as int + 1) && !q.contains(nb)
                implies chains_bounded(*g, q.push(nb), longest@.len() as int) by {
                let e2 = choose|e2: int| 0 <= e2 < e + 1 && e2 < g.edges@.len() && #[trigger] joins(g.edges@[e2], current, nb);
                if e2 < e {
                    assert(joined_before(*g, current, nb, e as int));
                    assert(chains_bounded(*g, q.push(nb), len_before as int));
                } else {
                    assert(next == Some(nb));
                }
            }
        }
        e = e + 1;
    }
    proof {
        assert forall|p: Seq<usize>| #[trigger] simple_chain(*g, p) && extends(p, q) implies p.len() <= longest@.len() by {
            if p.len() > q.len() {
                lemma_chain_step(*g, p, q);
                let nb = p[q.len() as int];
                let e2 = choose|e2: int| 0 <= e2 < g.edges@.len() && #[trigger] joins(g.edges@[e2], q.last(), nb);
                assert(joined_before(*g, current, nb, g.edges@.len() as int));
            } else {
                assert(p =~= q);
            }
        }
    }
    path.pop();
    visited.set(current, false);
    proof {
        assert(path@ =~= p0);
        assert(visited@ =~= v0) by {
            assert forall|n: int| 0 <= n < visited@.len() implies visited@[n] == v0[n] by {
                if n != current as int {
                    assert(visited@[n] <==> q.contains(n as usize));
                    assert(v0[n] <==> p0.contains(n as usize));
                    if q.contains(n as usize) {
                        let i = choose|i: int| 0 <= i < q.len() && q[i] == n as usize;
                        assert(i < p0.len());
                        assert(p0[i] == n as usize);
                    }
                    if p0.contains(n as usize) {
                        let i = choose|i: int| 0 <= i < p0.len() && p0[i] == n as usize;
                        assert(q[i] == n as usize);
                    }
                } else {
                    assert(!v0[n]);
                }
            }
        }
    }
}

/// A longest chain of the network: a depth-first search from every node.
fn find_longest_path(g: &RouteGraph) -> (r: Vec<usize>)
    requires
        graph_wf(*g),
    ensures
        longest_chain(*g, r@),
{
    let mut longest: Vec<usize> = Vec::new();
    let mut start: usize = 0;
    while start < g.node_count
        invariant
            graph_wf(*g),
            start <= g.node_count,
            longest@.len() == 0 || simple_chain(*g, longest@),
            forall|p: Seq<usize>| #[trigger] simple_chain(*g, p) && p.len() > 0 && p[0] < start ==> p.len() <= longest@.len(),
        decreases g.node_count - start,
    {
        let mut visited: Vec<bool> = Vec::new();
        let mut k: usize = 0;
        while k < g.node_count
            invariant
                k <= g.node_count,
                visited@.len() == k,
                forall|n: int| 0 <= n < k ==> !#[trigger] visited@[n],
            decreases g.node_count - k,
        {
            visited.push(false);
            k = k + 1;
        }
        let mut path: Vec<usize> = Vec::new();
        proof {
            assert(simple_chain(*g, path@.push(start))) by {
                assert(path@.push(start) =~= seq![start]);
            }
        }
        let ghost before = longest@.len();
        dfs_longest_path(g, start, &mut visited, &mut path, &mut longest);
        proof {
            assert forall|p: Seq<usize>| #[trigger] simple_chain(*g, p) && p.len() > 0 && p[0] < start + 1 implies p.len() <= longest@.len() by {
                if p[0] == start {
                    assert(p.take(1) =~= seq![start]);
                    assert(seq![start] =~= Seq::<usize>::empty().push(start));
                    assert(extends(p, Seq::<usize>::empty().push(start)));
                } else {
                    assert(p.len() <= before);
                }
            }
        }
        start = start + 1;
    }
    proof {
        assert forall|p: Seq<usize>| #[trigger] simple_chain(*g, p) implies p.len() <= longest@.len() by {
            if p.len() > 0 {
                assert(p[0] < g.node_count);
            }
        }
    }
    longest
}

/// The end nodes a default view shows: those of a longest chain of at least
/// two nodes, or none when no segment joins two different nodes.
pub open spec fn main_line_range_ok(g: RouteGraph, range: Option<(usize, usize)>) -> bool {
    match range {
        None => forall|p: Seq<usize>| #[trigger] simple_chain(g, p) ==> p.len() < 2,
        Some(ends) => exists|p: Seq<usize>| #[trigger] longest_chain(g, p) && p.len() >= 2 && p[0] == ends.0 && p.last() == ends.1,
    }
}

impl GraphView {
    /// The default view, "Main Line": the longest chain of distinct nodes
    /// joined by segments (see `main_line_range_ok`), with no stored segments.
    pub fn default_main_line(graph: &RouteGraph) -> (r: GraphView)
        requires
            graph_wf(*graph),
        ensures
            r.name@ == "Main Line"@,
            main_line_range_ok(*graph, r.station_range),
            r.edge_path is None,
    {
        let path = find_longest_path(graph);
        let station_range = if path.len() >= 2 {
            proof {
                assert(longest_chain(*graph, path@));
            }
            Some((path[0], path[path.len() - 1]))
        } else {
            None
        };
        GraphView { name: String::from_str("Main Line"), station_range, edge_path: None }
    }
}


/// Scanning an edge path and following it agree: where the scan of the first
/// `n` segments succeeds, following them from the start node it found passes
/// nodes from that start to the node it reached.
proof fn lemma_scan_follows(g: RouteGraph, ep: Seq<usize>, n: int)
    requires
        1 <= n <= ep.len(),
        scan_edge_path(g, ep, n) is Ok,
    ensures
        ({
            let range = scan_edge_path(g, ep, n)->Ok_0;
            &&& follow_edges(g, ep, range.0, n) is Some
            &&& follow_edges(g, ep, range.0, n)->0.len() == n + 1
            &&& follow_edges(g, ep, range.0, n)->0[0] == range.0
            &&& follow_edges(g, ep, range.0, n)->0.last() == range.1
        }),
    decreases n,
{
    let range = scan_edge_path(g, ep, n)->Ok_0;
    if n == 1 {
        let start = seq![range.0];
        assert(follow_edges(g, ep, range.0, 0) == Some(start));
        assert(start.last() == range.0);
        assert(follow_edges(g, ep, range.0, 1) == Some(start.push(range.1)));
    } else {
        lemma_scan_follows(g, ep, n - 1);
        let prev = scan_edge_path(g, ep, n - 1)->Ok_0;
        assert(prev.0 == range.0);
        let ns = follow_edges(g, ep, range.0, n - 1)->0;
        let ends = edge_ends(g, ep[n - 1])->0;
        if ends.0 == prev.1 {
            assert(follow_edges(g, ep, range.0, n) == Some(ns.push(ends.1)));
        } else {
            assert(follow_edges(g, ep, range.0, n) == Some(ns.push(ends.0)));
        }
    }
}

/// A view made from an edge path shows a path that runs from its first end
/// node to its second: following its segments never fails.
pub proof fn law_edge_path_view_runs_between_its_ends(g: RouteGraph, ep: Seq<usize>)
    requires
        ep.len() > 0,
        scan_edge_path(g, ep, ep.len() as int) is Ok,
    ensures
        ({
            let range = scan_edge_path(g, ep, ep.len() as int)->Ok_0;
            &&& follow_edges(g, ep, range.0, ep.len() as int) is Some
            &&& follow_edges(g, ep, range.0, ep.len() as int)->0[0] == range.0
            &&& follow_edges(g, ep, range.0, ep.len() as int)->0.last() == range.1
        }),
{
    lemma_scan_follows(g, ep, ep.len() as int);
}

} // verus!
