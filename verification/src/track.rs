//! Tracks of a segment between two nodes and how routes pick one.

use vstd::prelude::*;

verus! {

/// Direction a track may be used in.
#[derive(Debug, Clone, Copy, PartialEq, Eq, Structural)]
pub enum TrackDirection {
    Bidirectional,
    /// From source to target only
    Forward,
    /// From target to source only
    Backward,
}

/// Which side of a double track trains keep to.
#[derive(Debug, Clone, Copy, PartialEq, Eq, Structural)]
pub enum TrackHandedness {
    RightHand,
    LeftHand,
}

/// One track of a segment.
#[derive(Debug, Clone, Copy, PartialEq, Eq, Structural)]
pub struct Track {
    pub direction: TrackDirection,
}

/// Direction of track `i` among `n` tracks: outer tracks are directional
/// (first half forward, second half backward), the middle track of an odd
/// count is bidirectional, and a single track is bidirectional.
pub open spec fn track_direction_for(n: int, i: int) -> TrackDirection {
    if n == 1 {
        TrackDirection::Bidirectional
    } else if n % 2 == 1 && i == n / 2 {
        TrackDirection::Bidirectional
    } else if i < n / 2 {
        TrackDirection::Forward
    } else {
        TrackDirection::Backward
    }
}

/// The opposite travel direction.
pub open spec fn opposite(d: TrackDirection) -> TrackDirection {
    match d {
        TrackDirection::Forward => TrackDirection::Backward,
        TrackDirection::Backward => TrackDirection::Forward,
        TrackDirection::Bidirectional => TrackDirection::Bidirectional,
    }
}

/// Whether a track of direction `d` may be used when travelling forward
/// (source to target) or backward.
pub open spec fn direction_allows(d: TrackDirection, is_forward: bool) -> bool {
    if is_forward {
        d == TrackDirection::Forward || d == TrackDirection::Bidirectional
    } else {
        d == TrackDirection::Backward || d == TrackDirection::Bidirectional
    }
}

/// Create tracks based on count, using consistent direction assignment.
///
/// - 1 track: Bidirectional
/// - 2 tracks: Forward, Backward
/// - 3 tracks: Forward, Bidirectional, Backward
/// - 4 tracks: Forward, Forward, Backward, Backward
/// - 5 tracks: Forward, Forward, Bidirectional, Backward, Backward
pub fn create_tracks_with_count(track_count: usize) -> (r: Vec<Track>)
    ensures
        r@.len() == track_count,
        forall|i: int| 0 <= i < track_count ==> (#[trigger] r@[i]).direction == track_direction_for(track_count as int, i),
{
    let mut r: Vec<Track> = Vec::new();
    let mut i: usize = 0;
    while i < track_count
        invariant
            i <= track_count,
            r@.len() == i,
            forall|k: int| 0 <= k < i ==> (#[trigger] r@[k]).direction == track_direction_for(track_count as int, k),
        decreases track_count - i,
    {
        let direction = if track_count == 1 {
            TrackDirection::Bidirectional
        } else if track_count % 2 == 1 && i == track_count / 2 {
            TrackDirection::Bidirectional
        } else if i < track_count / 2 {
            TrackDirection::Forward
        } else {
            TrackDirection::Backward
        };
        r.push(Track { direction });
        i = i + 1;
    }
    r
}

/// Whether `d` allows travel in the given direction.
pub fn allows(d: TrackDirection, is_forward: bool) -> (r: bool)
    ensures
        r == direction_allows(d, is_forward),
{
    if is_forward {
        match d {
            TrackDirection::Forward | TrackDirection::Bidirectional => true,
            TrackDirection::Backward => false,
        }
    } else {
        match d {
            TrackDirection::Backward | TrackDirection::Bidirectional => true,
            TrackDirection::Forward => false,
        }
    }
}

/// A track index is unusable on a segment with the given tracks: it does not
/// exist or its direction does not allow the travel direction. Without track
/// information nothing is unusable.
pub open spec fn track_incompatible(tracks: Option<Seq<Track>>, track_index: int, is_forward: bool) -> bool {
    match tracks {
        None => false,
        Some(ts) => track_index >= ts.len() || !direction_allows(ts[track_index].direction, is_forward),
    }
}

/// The first track index from `i` up to `max_index` whose direction allows
/// the travel direction, or 0 when there is none.
pub open spec fn first_allowed_from(ts: Seq<Track>, is_forward: bool, i: int, max_index: int) -> int
    decreases ts.len() - i,
{
    if i < 0 || i > max_index || i >= ts.len() {
        0
    } else if direction_allows(ts[i].direction, is_forward) {
        i
    } else {
        first_allowed_from(ts, is_forward, i + 1, max_index)
    }
}

/// The first track index up to `max_index` whose direction allows the travel
/// direction, or 0 when there is none (or no track information).
pub open spec fn compatible_track(tracks: Option<Seq<Track>>, is_forward: bool, max_index: int) -> int {
    match tracks {
        None => 0,
        Some(ts) => first_allowed_from(ts, is_forward, 0, max_index),
    }
}

/// The tracks of an optional segment, as a sequence.
pub open spec fn tracks_view(tracks: Option<&Vec<Track>>) -> Option<Seq<Track>> {
    match tracks {
        None => None,
        Some(ts) => Some(ts@),
    }
}

/// Check if a track is incompatible with the route direction.
/// True if the track doesn't exist or has an incompatible direction.
pub fn is_track_incompatible(tracks: Option<&Vec<Track>>, track_index: usize, is_forward: bool) -> (r: bool)
    ensures
        r == track_incompatible(tracks_view(tracks), track_index as int, is_forward),
{
    match tracks {
        None => false,
        Some(ts) => {
            if track_index >= ts.len() {
                true
            } else {
                !allows(ts[track_index].direction, is_forward)
            }
        },
    }
}

/// Find a compatible track for a given route direction.
pub fn find_compatible_track(tracks: Option<&Vec<Track>>, is_forward: bool, max_index: usize) -> (r: usize)
    requires
        max_index < usize::MAX,
    ensures
        r == compatible_track(tracks_view(tracks), is_forward, max_index as int),
{
    match tracks {
        None => 0,
        Some(ts) => {
            let mut i: usize = 0;
            while i <= max_index && i < ts.len()
                invariant
                    i <= max_index + 1,
                    i <= ts@.len(),
                    tracks_view(tracks) == Some(ts@),
                    first_allowed_from(ts@, is_forward, 0, max_index as int)
                        == first_allowed_from(ts@, is_forward, i as int, max_index as int),
                decreases ts@.len() - i,
            {
                if allows(ts[i].direction, is_forward) {
                    return i;
                }
                i = i + 1;
            }
            0
        },
    }
}

/// Mirror law of the default track layout: track `i` and track `n - 1 - i`
/// have opposite directions, so a segment is symmetric for both travel directions.
pub proof fn lemma_track_layout_mirrored(n: int, i: int)
    requires
        0 <= i < n,
    ensures
        track_direction_for(n, n - 1 - i) == opposite(track_direction_for(n, i)),
{
}

/// Every default layout with at least one track serves both travel
/// directions: some track allows forward travel and some allows backward travel.
pub proof fn law_layout_serves_both_directions(n: int)
    requires
        n >= 1,
    ensures
        exists|i: int| 0 <= i < n && direction_allows(#[trigger] track_direction_for(n, i), true),
        exists|i: int| 0 <= i < n && direction_allows(#[trigger] track_direction_for(n, i), false),
{
    if n == 1 {
        assert(direction_allows(track_direction_for(n, 0), true));
        assert(direction_allows(track_direction_for(n, 0), false));
    } else {
        assert(direction_allows(track_direction_for(n, 0), true));
        assert(direction_allows(track_direction_for(n, n - 1), false));
    }
}

} // verus!

