//! A line's routes: the sequence of track segments a train runs over, with
//! the track, platforms, running time and dwell time of each; and the edits
//! that keep routes valid when the infrastructure under them changes.
//!
//! Time spans are held in nanoseconds, the resolution of the time deltas the
//! rest of the application uses, and stay within the range those allow
//! (plus or minus `i64::MAX` milliseconds).

use vstd::prelude::*;
use crate::jtraingraph::map_get;
use crate::track::{Track, track_incompatible, compatible_track, tracks_view, is_track_incompatible, find_compatible_track};

verus! {

/// Largest time span, in nanoseconds: `i64::MAX` milliseconds.
pub open spec fn span_max() -> int {
    9_223_372_036_854_775_807_000_000
}

/// A time span (nanoseconds) within the representable range.
pub open spec fn span_ok(x: int) -> bool {
    -span_max() <= x <= span_max()
}

/// One segment of a route.
#[derive(Debug, Clone, Copy, PartialEq, Eq, Structural)]
pub struct RouteSegment {
    pub edge_index: usize,
    pub track_index: usize,
    pub origin_platform: usize,
    pub destination_platform: usize,
    /// Running time, in nanoseconds; `None` inherits from the previous segment.
    pub duration: Option<i128>,
    /// Dwell time at the destination, in nanoseconds.
    pub wait_time: i128,
}

/// A segment's time spans are within range.
pub open spec fn segment_ok(s: RouteSegment) -> bool {
    &&& span_ok(s.wait_time as int)
    &&& match s.duration {
        Some(d) => span_ok(d as int),
        None => true,
    }
}

/// Every segment's time spans are within range.
pub open spec fn route_ok(r: Seq<RouteSegment>) -> bool {
    forall|i: int| 0 <= i < r.len() ==> segment_ok(#[trigger] r[i])
}

impl RouteSegment {
    /// A segment without a running time is valid only at a passing station,
    /// where it must not wait either.
    pub fn is_valid_for_passing_station(&self) -> (r: bool)
        ensures
            r == (self.duration is None && self.wait_time == 0),
    {
        self.duration.is_none() && self.wait_time == 0
    }
}

/// Some segment of `r` runs over edge `e`.
pub open spec fn route_uses(r: Seq<RouteSegment>, e: usize) -> bool {
    exists|i: int| 0 <= i < r.len() && (#[trigger] r[i]).edge_index == e
}

/// Some segment of `r` runs over one of the edges `es`.
pub open spec fn route_uses_any(r: Seq<RouteSegment>, es: Seq<usize>) -> bool {
    exists|i: int| 0 <= i < r.len() && es.contains((#[trigger] r[i]).edge_index)
}

pub(crate) fn route_uses_exec(r: &Vec<RouteSegment>, e: usize) -> (b: bool)
    ensures
        b == route_uses(r@, e),
{
    let mut i: usize = 0;
    while i < r.len()
        invariant
            i <= r@.len(),
            forall|j: int| 0 <= j < i ==> (#[trigger] r@[j]).edge_index != e,
        decreases r.len() - i,
    {
        if r[i].edge_index == e {
            return true;
        }
        i = i + 1;
    }
    false
}

fn contains_usize(es: &[usize], x: usize) -> (b: bool)
    ensures
        b == es@.contains(x),
{
    let mut i: usize = 0;
    while i < es.len()
        invariant
            i <= es@.len(),
            forall|j: int| 0 <= j < i ==> es@[j] != x,
        decreases es.len() - i,
    {
        if es[i] == x {
            return true;
        }
        i = i + 1;
    }
    false
}

fn route_uses_any_exec(r: &Vec<RouteSegment>, es: &[usize]) -> (b: bool)
    ensures
        b == route_uses_any(r@, es@),
{
    let mut i: usize = 0;
    while i < r.len()
        invariant
            i <= r@.len(),
            forall|j: int| 0 <= j < i ==> !es@.contains((#[trigger] r@[j]).edge_index),
        decreases r.len() - i,
    {
        if contains_usize(es, r[i].edge_index) {
            return true;
        }
        i = i + 1;
    }
    false
}

/// The route part of a line: its forward and return routes, whether the
/// return route follows the forward one, and the dwell time at the first stop
/// (nanoseconds).
pub struct LineRoutes {
    pub forward_route: Vec<RouteSegment>,
    pub return_route: Vec<RouteSegment>,
    pub sync_routes: bool,
    pub first_stop_wait_time: i128,
}

impl LineRoutes {
    /// Whether either route runs over edge `edge_index`.
    pub fn uses_edge(&self, edge_index: usize) -> (r: bool)
        ensures
            r == (route_uses(self.forward_route@, edge_index) || route_uses(self.return_route@, edge_index)),
    {
        route_uses_exec(&self.forward_route, edge_index) || route_uses_exec(&self.return_route, edge_index)
    }

    /// Whether either route runs over any of `edge_indices`.
    pub fn uses_any_edge(&self, edge_indices: &[usize]) -> (r: bool)
        ensures
            r == (route_uses_any(self.forward_route@, edge_indices@) || route_uses_any(
                self.return_route@,
                edge_indices@,
            )),
    {
        route_uses_any_exec(&self.forward_route, edge_indices) || route_uses_any_exec(&self.return_route, edge_indices)
    }
}

/// The bypass edge recorded for a pair of removed edges (first match).
pub open spec fn bypass_lookup(bypass: Seq<((usize, usize), usize)>, k: (usize, usize)) -> Option<usize>
    decreases bypass.len(),
{
    if bypass.len() == 0 {
        None
    } else if bypass[0].0 == k {
        Some(bypass[0].1)
    } else {
        bypass_lookup(bypass.drop_first(), k)
    }
}

/// The segment that replaces two consecutive segments `s` and `n` running over
/// a removed station: it runs over `edge` from `s`'s origin platform to `n`'s
/// destination platform on track 0, takes both running times and the dwell
/// between them (when both running times are known), and dwells as `n` did.
pub open spec fn merged_segment(s: RouteSegment, n: RouteSegment, edge: usize) -> RouteSegment {
    RouteSegment {
        edge_index: edge,
        track_index: 0,
        origin_platform: s.origin_platform,
        destination_platform: n.destination_platform,
        duration: match (s.duration, n.duration) {
            (Some(d1), Some(d2)) => Some((d1 + s.wait_time + d2) as i128),
            _ => None,
        },
        wait_time: n.wait_time,
    }
}

/// The combined running time of a merge stays within range (both partial sums).
pub open spec fn merge_fits(s: RouteSegment, n: RouteSegment) -> bool {
    match (s.duration, n.duration) {
        (Some(d1), Some(d2)) => span_ok(d1 + s.wait_time) && span_ok(d1 + s.wait_time + d2),
        _ => true,
    }
}

/// The route from position `i` on after edges `removed` are taken out:
/// segments over kept edges stay; a segment over a removed edge is merged with
/// the next one when a bypass edge is recorded for the pair, and dropped otherwise.
pub open spec fn rerouted_from(
    route: Seq<RouteSegment>,
    removed: Seq<usize>,
    bypass: Seq<((usize, usize), usize)>,
    i: int,
) -> Seq<RouteSegment>
    decreases route.len() - i,
{
    if i < 0 || i >= route.len() {
        Seq::empty()
    } else if !removed.contains(route[i].edge_index) {
        seq![route[i]] + rerouted_from(route, removed, bypass, i + 1)
    } else if i + 1 >= route.len() {
        Seq::empty()
    } else {
        match bypass_lookup(bypass, (route[i].edge_index, route[i + 1].edge_index)) {
            None => rerouted_from(route, removed, bypass, i + 1),
            Some(b) => seq![merged_segment(route[i], route[i + 1], b)] + rerouted_from(route, removed, bypass, i + 2),
        }
    }
}

/// Every merge made when rerouting from position `i` keeps its running time in range.
pub open spec fn reroute_fits(
    route: Seq<RouteSegment>,
    removed: Seq<usize>,
    bypass: Seq<((usize, usize), usize)>,
    i: int,
) -> bool
    decreases route.len() - i,
{
    if i < 0 || i >= route.len() {
        true
    } else if !removed.contains(route[i].edge_index) {
        reroute_fits(route, removed, bypass, i + 1)
    } else if i + 1 >= route.len() {
        true
    } else {
        match bypass_lookup(bypass, (route[i].edge_index, route[i + 1].edge_index)) {
            None => reroute_fits(route, removed, bypass, i + 1),
            Some(b) => merge_fits(route[i], route[i + 1]) && reroute_fits(route, removed, bypass, i + 2),
        }
    }
}

fn bypass_lookup_exec(bypass: &[((usize, usize), usize)], a: usize, b: usize) -> (r: Option<usize>)
    ensures
        r == bypass_lookup(bypass@, (a, b)),
{
    let mut i: usize = 0;
    assert(bypass@.skip(0) =~= bypass@);
    while i < bypass.len()
        invariant
            i <= bypass@.len(),
            bypass_lookup(bypass@, (a, b)) == bypass_lookup(bypass@.skip(i as int), (a, b)),
        decreases bypass.len() - i,
    {
        assert(bypass@.skip(i as int).drop_first() =~= bypass@.skip(i + 1));
        let (k, v) = bypass[i];
        if k.0 == a && k.1 == b {
            return Some(v);
        }
        i = i + 1;
    }
    None
}

/// The route with the segments over removed edges replaced by bypass edges
/// where one is recorded, and dropped otherwise.
pub fn update_single_route(
    route: &[RouteSegment],
    removed_edges: &[usize],
    bypass_mapping: &[((usize, usize), usize)],
) -> (r: Vec<RouteSegment>)
    requires
        reroute_fits(route@, removed_edges@, bypass_mapping@, 0),
    ensures
        r@ == rerouted_from(route@, removed_edges@, bypass_mapping@, 0),
{
    let mut new_route: Vec<RouteSegment> = Vec::new();
    let mut i: usize = 0;
    while i < route.len()
        invariant
            i <= route@.len() + 1,
            new_route@ + rerouted_from(route@, removed_edges@, bypass_mapping@, i as int)
                == rerouted_from(route@, removed_edges@, bypass_mapping@, 0),
            reroute_fits(route@, removed_edges@, bypass_mapping@, i as int),
        decreases route.len() + 1 - i,
    {
        let ghost before = new_route@;
        let segment = route[i];
        if !contains_usize(removed_edges, segment.edge_index) {
            new_route.push(segment);
            assert(new_route@ + rerouted_from(route@, removed_edges@, bypass_mapping@, i + 1) =~= before
                + rerouted_from(route@, removed_edges@, bypass_mapping@, i as int));
            i = i + 1;
            continue;
        }
        if i + 1 >= route.len() {
            assert(rerouted_from(route@, removed_edges@, bypass_mapping@, i + 1) =~= Seq::<RouteSegment>::empty());
            i = i + 1;
            continue;
        }
        let next_segment = route[i + 1];
        match bypass_lookup_exec(bypass_mapping, segment.edge_index, next_segment.edge_index) {
            None => {
                i = i + 1;
            },
            Some(bypass_edge) => {
                let duration: Option<i128> = match (segment.duration, next_segment.duration) {
                    (Some(d1), Some(d2)) => Some(d1 + segment.wait_time + d2),
                    _ => None,
                };
                new_route.push(RouteSegment {
                    edge_index: bypass_edge,
                    track_index: 0,
                    origin_platform: segment.origin_platform,
                    destination_platform: next_segment.destination_platform,
                    duration,
                    wait_time: next_segment.wait_time,
                });
                assert(new_route@ + rerouted_from(route@, removed_edges@, bypass_mapping@, i + 2) =~= before
                    + rerouted_from(route@, removed_edges@, bypass_mapping@, i as int));
                i = i + 2;
            },
        }
    }
    assert(rerouted_from(route@, removed_edges@, bypass_mapping@, i as int) =~= Seq::<RouteSegment>::empty());
    assert(new_route@ =~= new_route@ + Seq::<RouteSegment>::empty());
    new_route
}

/// The keys of a bypass table are distinct (it is a map).
pub open spec fn bypass_keys_unique(bypass: Seq<((usize, usize), usize)>) -> bool {
    forall|i: int, j: int| 0 <= i < bypass.len() && 0 <= j < bypass.len() && i != j ==> (#[trigger] bypass[i]).0
        != (#[trigger] bypass[j]).0
}

impl LineRoutes {
    /// Update both routes after a station was deleted: `removed_edges` are
    /// the edges that went with it, and `bypass_mapping` maps each pair of
    /// removed edges that a route ran over in a row to the edge that now
    /// bypasses the station.
    pub fn update_route_after_deletion(&mut self, removed_edges: &[usize], bypass_mapping: &[((usize, usize), usize)])
        requires
            bypass_keys_unique(bypass_mapping@),
            reroute_fits(old(self).forward_route@, removed_edges@, bypass_mapping@, 0),
            reroute_fits(old(self).return_route@, removed_edges@, bypass_mapping@, 0),
        ensures
            final(self).forward_route@ == rerouted_from(old(self).forward_route@, removed_edges@, bypass_mapping@, 0),
            final(self).return_route@ == rerouted_from(old(self).return_route@, removed_edges@, bypass_mapping@, 0),
            final(self).sync_routes == old(self).sync_routes,
            final(self).first_stop_wait_time == old(self).first_stop_wait_time,
    {
        self.forward_route = update_single_route(self.forward_route.as_slice(), removed_edges, bypass_mapping);
        self.return_route = update_single_route(self.return_route.as_slice(), removed_edges, bypass_mapping);
    }
}

/// A segment after the tracks of `edge` changed to `new_track_count` tracks
/// (`tracks` when the graph has them): segments on other edges are left
/// alone; a track index past the last track, or one whose direction does not
/// allow the route's direction, is replaced by the first suitable track.
pub open spec fn fixed_segment(s: RouteSegment, edge: usize, max_track: int, tracks: Option<Seq<Track>>, is_forward: bool) -> RouteSegment {
    if s.edge_index != edge {
        s
    } else if s.track_index > max_track || track_incompatible(tracks, s.track_index as int, is_forward) {
        RouteSegment { track_index: compatible_track(tracks, is_forward, max_track) as usize, ..s }
    } else {
        s
    }
}

fn fix_route_tracks(route: &mut Vec<RouteSegment>, edge_index: usize, max_track: usize, tracks: Option<&Vec<Track>>, is_forward: bool)
    requires
        max_track < usize::MAX,
    ensures
        final(route)@.len() == old(route)@.len(),
        forall|i: int| 0 <= i < old(route)@.len() ==> #[trigger] final(route)@[i] == fixed_segment(
            old(route)@[i],
            edge_index,
            max_track as int,
            tracks_view(tracks),
            is_forward,
        ),
{
    let ghost orig = route@;
    let mut i: usize = 0;
    while i < route.len()
        invariant
            max_track < usize::MAX,
            route@.len() == orig.len(),
            i <= orig.len(),
            forall|j: int| 0 <= j < i ==> #[trigger] route@[j] == fixed_segment(orig[j], edge_index, max_track as int, tracks_view(tracks), is_forward),
            forall|j: int| i <= j < orig.len() ==> #[trigger] route@[j] == orig[j],
            orig == old(route)@,
        decreases route.len() - i,
    {
        let seg = route[i];
        if seg.edge_index == edge_index {
            if seg.track_index > max_track || is_track_incompatible(tracks, seg.track_index, is_forward) {
                let t = find_compatible_track(tracks, is_forward, max_track);
                route.set(i, RouteSegment { track_index: t, ..seg });
            }
        }
        i = i + 1;
    }
}

impl LineRoutes {
    /// Fix track indices after the tracks of an edge changed: segments over
    /// that edge whose track is out of range or runs against the route's
    /// direction get the first suitable track (forward for the forward route,
    /// backward for the return route).
    pub fn fix_track_indices_after_change(&mut self, edge_index: usize, new_track_count: usize, tracks: Option<&Vec<Track>>)
        ensures
            ({
                let max_track = if new_track_count == 0 { 0int } else { new_track_count - 1 };
                &&& final(self).forward_route@.len() == old(self).forward_route@.len()
                &&& final(self).return_route@.len() == old(self).return_route@.len()
                &&& forall|i: int| 0 <= i < old(self).forward_route@.len() ==> #[trigger] final(self).forward_route@[i]
                    == fixed_segment(old(self).forward_route@[i], edge_index, max_track, tracks_view(tracks), true)
                &&& forall|i: int| 0 <= i < old(self).return_route@.len() ==> #[trigger] final(self).return_route@[i]
                    == fixed_segment(old(self).return_route@[i], edge_index, max_track, tracks_view(tracks), false)
                &&& final(self).sync_routes == old(self).sync_routes
                &&& final(self).first_stop_wait_time == old(self).first_stop_wait_time
            }),
    {
        let max_track_index = if new_track_count == 0 { 0 } else { new_track_count - 1 };
        fix_route_tracks(&mut self.forward_route, edge_index, max_track_index, tracks, true);
        fix_route_tracks(&mut self.return_route, edge_index, max_track_index, tracks, false);
    }
}

/// Half a time span, rounded down to the nanosecond (as dividing a time delta by 2 gives).
pub open spec fn half_span(d: int) -> int {
    d / 2
}

fn half_span_exec(d: i128) -> (r: i128)
    requires
        span_ok(d as int),
    ensures
        r == half_span(d as int),
{
    if d >= 0 {
        d / 2
    } else {
        let m: i128 = -d;
        let h: i128 = (m + 1) / 2;
        assert(-h == d / 2) by (nonlinear_arith)
            requires m == -d, m > 0, h == (m + 1) / 2;
        -h
    }
}

/// The two segments that replace a segment over an edge that was split at a
/// new node: first over `first_edge` to the new node (arriving on
/// `middle_arriving`), then over `second_edge` from it (leaving from
/// `middle_departing`); both keep the track (capped at the new track count)
/// and get half the running time; the first keeps the dwell, the second
/// dwells for no time.
pub open spec fn split_segments(
    s: RouteSegment,
    first_edge: usize,
    second_edge: usize,
    track_count: usize,
    middle_arriving: usize,
    middle_departing: usize,
) -> Seq<RouteSegment> {
    let max_track = if track_count == 0 { 0usize } else { (track_count - 1) as usize };
    let track = if s.track_index < max_track { s.track_index } else { max_track };
    let half = match s.duration {
        Some(d) => Some(half_span(d as int) as i128),
        None => None,
    };
    seq![
        RouteSegment { edge_index: first_edge, track_index: track, origin_platform: s.origin_platform, destination_platform: middle_arriving, duration: half, wait_time: s.wait_time },
        RouteSegment { edge_index: second_edge, track_index: track, origin_platform: middle_departing, destination_platform: s.destination_platform, duration: half, wait_time: 0 },
    ]
}

/// The first `n` segments of a route after splitting edge `old_edge`.
pub open spec fn split_route(
    route: Seq<RouteSegment>,
    old_edge: usize,
    first_edge: usize,
    second_edge: usize,
    track_count: usize,
    middle_arriving: usize,
    middle_departing: usize,
    n: int,
) -> Seq<RouteSegment>
    decreases n,
{
    if n <= 0 {
        Seq::empty()
    } else {
        let prev = split_route(route, old_edge, first_edge, second_edge, track_count, middle_arriving, middle_departing, n - 1);
        let s = route[n - 1];
        if s.edge_index == old_edge {
            prev + split_segments(s, first_edge, second_edge, track_count, middle_arriving, middle_departing)
        } else {
            prev.push(s)
        }
    }
}

/// Replace every segment over `old_edge` by two segments through the node
/// that now splits it (see `split_segments`).
pub fn replace_split_edge_in_route(
    route: &mut Vec<RouteSegment>,
    old_edge: usize,
    first_edge: usize,
    second_edge: usize,
    track_count: usize,
    middle_arriving: usize,
    middle_departing: usize,
)
    requires
        route_ok(old(route)@),
    ensures
        final(route)@ == split_route(
            old(route)@,
            old_edge,
            first_edge,
            second_edge,
            track_count,
            middle_arriving,
            middle_departing,
            old(route)@.len() as int,
        ),
{
    let ghost orig = route@;
    let mut new_route: Vec<RouteSegment> = Vec::new();
    let max_track: usize = if track_count == 0 { 0 } else { track_count - 1 };
    let mut i: usize = 0;
    while i < route.len()
        invariant
            route@ == orig,
            route_ok(orig),
            i <= orig.len(),
            max_track == if track_count == 0 { 0usize } else { (track_count - 1) as usize },
            new_route@ == split_route(orig, old_edge, first_edge, second_edge, track_count, middle_arriving, middle_departing, i as int),
        decreases route.len() - i,
    {
        let segment = route[i];
        assert(segment_ok(orig[i as int]));
        if segment.edge_index == old_edge {
            let track = if segment.track_index < max_track { segment.track_index } else { max_track };
            let half: Option<i128> = match segment.duration {
                Some(d) => Some(half_span_exec(d)),
                None => None,
            };
            let ghost before = new_route@;
            new_route.push(RouteSegment {
                edge_index: first_edge,
                track_index: track,
                origin_platform: segment.origin_platform,
                destination_platform: middle_arriving,
                duration: half,
                wait_time: segment.wait_time,
            });
            new_route.push(RouteSegment {
                edge_index: second_edge,
                track_index: track,
                origin_platform: middle_departing,
                destination_platform: segment.destination_platform,
                duration: half,
                wait_time: 0,
            });
            assert(new_route@ =~= before + split_segments(segment, first_edge, second_edge, track_count, middle_arriving, middle_departing));
        } else {
            new_route.push(segment);
        }
        i = i + 1;
    }
    *route = new_route;
}

impl LineRoutes {
    /// Split edge `old_edge` into `new_edge1` then `new_edge2` (in the forward
    /// direction) in both routes; the return route runs over them in the
    /// opposite order. The platforms at the new middle node are those the
    /// graph suggests for arriving over and leaving by each new edge.
    pub fn replace_split_edge(
        &mut self,
        old_edge: usize,
        new_edge1: usize,
        new_edge2: usize,
        track_count: usize,
        arrive_by_edge1: usize,
        leave_by_edge2: usize,
        arrive_by_edge2: usize,
        leave_by_edge1: usize,
    )
        requires
            route_ok(old(self).forward_route@),
            route_ok(old(self).return_route@),
        ensures
            final(self).forward_route@ == split_route(
                old(self).forward_route@,
                old_edge,
                new_edge1,
                new_edge2,
                track_count,
                arrive_by_edge1,
                leave_by_edge2,
                old(self).forward_route@.len() as int,
            ),
            final(self).return_route@ == split_route(
                old(self).return_route@,
                old_edge,
                new_edge2,
                new_edge1,
                track_count,
                arrive_by_edge2,
                leave_by_edge1,
                old(self).return_route@.len() as int,
            ),
            final(self).sync_routes == old(self).sync_routes,
            final(self).first_stop_wait_time == old(self).first_stop_wait_time,
    {
        replace_split_edge_in_route(&mut self.forward_route, old_edge, new_edge1, new_edge2, track_count, arrive_by_edge1, leave_by_edge2);
        replace_split_edge_in_route(&mut self.return_route, old_edge, new_edge2, new_edge1, track_count, arrive_by_edge2, leave_by_edge1);
    }
}

/// The last segment of `ret` over edge `e`, if any: the settings a synced
/// return route keeps for that edge.
pub open spec fn existing_settings(ret: Seq<RouteSegment>, e: usize) -> Option<RouteSegment>
    decreases ret.len(),
{
    if ret.len() == 0 {
        None
    } else if ret.last().edge_index == e {
        Some(ret.last())
    } else {
        existing_settings(ret.drop_last(), e)
    }
}

/// Segment `i` of the return route synced from forward route `fwd`: the
/// forward segments in reverse order, with no running time (it is derived
/// from the forward route later). An edge the old return route already ran
/// over keeps that route's track, platforms and dwell; a new edge takes the
/// forward segment's track with its platforms swapped, and the dwell of the
/// forward stop before it (the first-stop dwell for the last segment).
pub open spec fn synced_segment(fwd: Seq<RouteSegment>, ret: Seq<RouteSegment>, first_stop_wait: i128, i: int) -> RouteSegment {
    let f = fwd[fwd.len() - 1 - i];
    match existing_settings(ret, f.edge_index) {
        Some(x) => RouteSegment {
            edge_index: f.edge_index,
            track_index: x.track_index,
            origin_platform: x.origin_platform,
            destination_platform: x.destination_platform,
            duration: None,
            wait_time: x.wait_time,
        },
        None => RouteSegment {
            edge_index: f.edge_index,
            track_index: f.track_index,
            origin_platform: f.destination_platform,
            destination_platform: f.origin_platform,
            duration: None,
            wait_time: if i < fwd.len() - 1 { fwd[fwd.len() - i - 2].wait_time } else { first_stop_wait },
        },
    }
}

/// The whole synced return route.
pub open spec fn synced_return(fwd: Seq<RouteSegment>, ret: Seq<RouteSegment>, first_stop_wait: i128) -> Seq<RouteSegment> {
    Seq::new(fwd.len(), |i: int| synced_segment(fwd, ret, first_stop_wait, i))
}

impl LineRoutes {
    /// When the routes are synced, rebuild the return route from the forward
    /// route (see `synced_segment`); otherwise change nothing.
    pub fn apply_route_sync_if_enabled(&mut self)
        ensures
            final(self).forward_route@ == old(self).forward_route@,
            final(self).sync_routes == old(self).sync_routes,
            final(self).first_stop_wait_time == old(self).first_stop_wait_time,
            final(self).return_route@ == if old(self).sync_routes {
                synced_return(old(self).forward_route@, old(self).return_route@, old(self).first_stop_wait_time)
            } else {
                old(self).return_route@
            },
    {
        broadcast use vstd::std_specs::hash::group_hash_axioms;
        if !self.sync_routes {
            return;
        }
        let ghost ret = self.return_route@;
        let ghost fwd = self.forward_route@;
        let mut existing: std::collections::HashMap<usize, RouteSegment> = std::collections::HashMap::new();
        let mut k: usize = 0;
        while k < self.return_route.len()
            invariant
                ret == self.return_route@,
                k <= ret.len(),
                forall|e: usize| #[trigger] map_get(existing@, e) == existing_settings(ret.take(k as int), e),
            decreases ret.len() - k,
        {
            let seg = self.return_route[k];
            let ghost before = existing@;
            existing.insert(seg.edge_index, seg);
            proof {
                assert(ret.take(k + 1).drop_last() =~= ret.take(k as int));
                assert forall|e: usize| #[trigger] map_get(existing@, e) == existing_settings(ret.take(k + 1), e) by {
                    assert(map_get(before, e) == existing_settings(ret.take(k as int), e));
                }
            }
            k = k + 1;
        }
        assert(ret.take(ret.len() as int) =~= ret);
        let n = self.forward_route.len();
        let mut new_return_route: Vec<RouteSegment> = Vec::new();
        let mut i: usize = 0;
        while i < n
            invariant
                fwd == self.forward_route@,
                ret == self.return_route@,
                n == fwd.len(),
                i <= n,
                forall|e: usize| #[trigger] map_get(existing@, e) == existing_settings(ret, e),
                new_return_route@.len() == i,
                forall|j: int| 0 <= j < i ==> #[trigger] new_return_route@[j] == synced_segment(fwd, ret, self.first_stop_wait_time, j),
            decreases n - i,
        {
            let forward_seg = self.forward_route[n - 1 - i];
            assert(map_get(existing@, forward_seg.edge_index) == existing_settings(ret, forward_seg.edge_index));
            let seg = match existing.get(&forward_seg.edge_index) {
                Some(x) => RouteSegment {
                    edge_index: forward_seg.edge_index,
                    track_index: x.track_index,
                    origin_platform: x.origin_platform,
                    destination_platform: x.destination_platform,
                    duration: None,
                    wait_time: x.wait_time,
                },
                None => {
                    let wait_time = if i < n - 1 {
                        self.forward_route[n - i - 2].wait_time
                    } else {
                        self.first_stop_wait_time
                    };
                    RouteSegment {
                        edge_index: forward_seg.edge_index,
                        track_index: forward_seg.track_index,
                        origin_platform: forward_seg.destination_platform,
                        destination_platform: forward_seg.origin_platform,
                        duration: None,
                        wait_time,
                    }
                },
            };
            new_return_route.push(seg);
            i = i + 1;
        }
        assert(new_return_route@ =~= synced_return(fwd, ret, self.first_stop_wait_time));
        self.return_route = new_return_route;
    }
}

/// End of the run of segments without a running time that starts at `i`.
pub open spec fn span_end(fwd: Seq<RouteSegment>, i: int) -> int
    decreases fwd.len() - i,
{
    if i < 0 || i >= fwd.len() || fwd[i].duration is Some {
        if i < 0 { 0 } else { i }
    } else {
        span_end(fwd, i + 1)
    }
}

/// A run of segments without running time ends at or after its start, and
/// within the route.
pub proof fn lemma_span_end(fwd: Seq<RouteSegment>, i: int)
    requires
        0 <= i,
    ensures
        i <= span_end(fwd, i),
        i <= fwd.len() ==> span_end(fwd, i) <= fwd.len(),
    decreases fwd.len() - i,
{
    if i < fwd.len() && fwd[i].duration is None {
        lemma_span_end(fwd, i + 1);
    }
}

/// Display durations of the return route, filled in from position `i` of the
/// forward route: each running time of the forward route covers its segment
/// and the following segments without one, and is shown on the return
/// segment where that stretch begins when travelled backward (position
/// `rlen - end`, or 0). Later stretches overwrite earlier ones.
pub open spec fn display_writes(fwd: Seq<RouteSegment>, rlen: int, i: int, out: Seq<Option<i128>>) -> Seq<Option<i128>>
    decreases fwd.len() - i,
{
    if i < 0 || i >= fwd.len() {
        out
    } else {
        match fwd[i].duration {
            Some(d) => {
                let e = span_end(fwd, i + 1);
                proof {
                    lemma_span_end(fwd, i + 1);
                }
                let start = if e > rlen { 0 } else { rlen - e };
                let out2 = if start < out.len() { out.update(start, Some(d)) } else { out };
                display_writes(fwd, rlen, e, out2)
            },
            None => display_writes(fwd, rlen, i + 1, out),
        }
    }
}

/// The return route's display durations.
pub open spec fn return_display_spec(fwd: Seq<RouteSegment>, ret: Seq<RouteSegment>, sync: bool) -> Seq<Option<i128>> {
    if !sync || ret.len() == 0 {
        ret.map_values(|s: RouteSegment| s.duration)
    } else {
        display_writes(fwd, ret.len() as int, 0, Seq::new(ret.len(), |k: int| None::<i128>))
    }
}

impl LineRoutes {
    /// The running times shown for the return route: its own when the routes
    /// are not synced; otherwise those of the forward route, mirrored (see
    /// `display_writes`).
    pub fn get_return_display_durations(&self) -> (r: Vec<Option<i128>>)
        ensures
            r@ == return_display_spec(self.forward_route@, self.return_route@, self.sync_routes),
    {
        let rlen = self.return_route.len();
        if !self.sync_routes || rlen == 0 {
            let mut out: Vec<Option<i128>> = Vec::new();
            let mut k: usize = 0;
            while k < rlen
                invariant
                    rlen == self.return_route@.len(),
                    k <= rlen,
                    out@ == self.return_route@.take(k as int).map_values(|s: RouteSegment| s.duration),
                decreases rlen - k,
            {
                out.push(self.return_route[k].duration);
                k = k + 1;
                assert(out@ =~= self.return_route@.take(k as int).map_values(|s: RouteSegment| s.duration));
            }
            assert(self.return_route@.take(rlen as int) =~= self.return_route@);
            return out;
        }
        let ghost fwd = self.forward_route@;
        let mut out: Vec<Option<i128>> = Vec::new();
        let mut k: usize = 0;
        while k < rlen
            invariant
                k <= rlen,
                out@ == Seq::new(k as nat, |j: int| None::<i128>),
            decreases rlen - k,
        {
            out.push(None);
            k = k + 1;
            assert(out@ =~= Seq::new(k as nat, |j: int| None::<i128>));
        }
        let ghost target = display_writes(fwd, rlen as int, 0, out@);
        let n = self.forward_route.len();
        let mut i: usize = 0;
        while i < n
            invariant
                fwd == self.forward_route@,
                n == fwd.len(),
                i <= n,
                out@.len() == rlen,
                rlen > 0,
                display_writes(fwd, rlen as int, i as int, out@) == target,
            decreases n - i,
        {
            match self.forward_route[i].duration {
                Some(d) => {
                    let mut j = i + 1;
                    while j < n && self.forward_route[j].duration.is_none()
                        invariant
                            fwd == self.forward_route@,
                            n == fwd.len(),
                            i < j <= n,
                            span_end(fwd, i + 1) == span_end(fwd, j as int),
                        decreases n - j,
                    {
                        j = j + 1;
                    }
                    let start = if j > rlen { 0 } else { rlen - j };
                    if start < out.len() {
                        out.set(start, Some(d));
                    }
                    i = j;
                },
                None => {
                    i = i + 1;
                },
            }
        }
        out
    }
}

} // verus!

