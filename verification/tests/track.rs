use nimby_graph::track::{create_tracks_with_count, find_compatible_track, is_track_incompatible, Track, TrackDirection};

#[test]
fn test_track_direction_equality() {
    assert_eq!(TrackDirection::Bidirectional, TrackDirection::Bidirectional);
    assert_eq!(TrackDirection::Forward, TrackDirection::Forward);
    assert_eq!(TrackDirection::Backward, TrackDirection::Backward);
    assert_ne!(TrackDirection::Forward, TrackDirection::Backward);
}

#[test]
fn test_track_creation() {
    let track = Track { direction: TrackDirection::Bidirectional };
    assert_eq!(track.direction, TrackDirection::Bidirectional);
}

#[test]
fn test_is_track_incompatible() {
    let tracks = vec![
        Track { direction: TrackDirection::Forward },
        Track { direction: TrackDirection::Backward },
    ];

    // Forward route should be compatible with Forward track (index 0)
    assert!(!is_track_incompatible(Some(&tracks), 0, true));
    // Forward route should be incompatible with Backward track (index 1)
    assert!(is_track_incompatible(Some(&tracks), 1, true));
    // Return route should be compatible with Backward track (index 1)
    assert!(!is_track_incompatible(Some(&tracks), 1, false));
    // Return route should be incompatible with Forward track (index 0)
    assert!(is_track_incompatible(Some(&tracks), 0, false));
}

#[test]
fn test_find_compatible_track() {
    let tracks = vec![
        Track { direction: TrackDirection::Backward },
        Track { direction: TrackDirection::Forward },
        Track { direction: TrackDirection::Bidirectional },
    ];

    // For forward route, should find first compatible track (index 1 - Forward)
    assert_eq!(find_compatible_track(Some(&tracks), true, 2), 1);
    // For return route, should find first compatible track (index 0 - Backward)
    assert_eq!(find_compatible_track(Some(&tracks), false, 2), 0);
}

#[test]
fn track_layouts_by_count() {
    let dirs = |n: usize| create_tracks_with_count(n).iter().map(|t| t.direction).collect::<Vec<_>>();
    let (b, x, f) = (TrackDirection::Backward, TrackDirection::Bidirectional, TrackDirection::Forward);
    assert_eq!(dirs(0), vec![]);
    assert_eq!(dirs(1), vec![x]);
    assert_eq!(dirs(2), vec![f, b]);
    assert_eq!(dirs(3), vec![f, x, b]);
    assert_eq!(dirs(4), vec![f, f, b, b]);
    assert_eq!(dirs(5), vec![f, f, x, b, b]);
}

#[test]
fn missing_segment_is_never_incompatible() {
    assert!(!is_track_incompatible(None, 7, true));
    assert_eq!(find_compatible_track(None, false, 3), 0);
    let tracks = vec![Track { direction: TrackDirection::Forward }];
    assert!(is_track_incompatible(Some(&tracks), 1, true));
    assert_eq!(find_compatible_track(Some(&tracks), false, 0), 0);
}
