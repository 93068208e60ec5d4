//! Project-level settings and identifiers.

use vstd::prelude::*;

verus! {

/// Identity and timestamps of a project.
#[derive(Debug, Clone)]
pub struct ProjectMetadata {
    pub id: String,
    pub name: String,
    pub created_at: String,
    pub updated_at: String,
}

/// How stations are spaced in the graph view.
#[derive(Debug, Clone, Copy, PartialEq, Eq, Structural)]
pub enum SpacingMode {
    Equal,
    DistanceBased,
}

impl Default for SpacingMode {
    fn default() -> (r: Self)
        ensures
            r == SpacingMode::Equal,
    {
        SpacingMode::Equal
    }
}

/// What the graph view's legend shows.
#[derive(Debug, Clone, Copy, PartialEq, Eq, Structural)]
pub struct Legend {
    pub show_conflicts: bool,
    pub show_line_blocks: bool,
    pub spacing_mode: SpacingMode,
}

impl Default for Legend {
    fn default() -> (r: Self)
        ensures
            r.show_conflicts,
            !r.show_line_blocks,
            r.spacing_mode == SpacingMode::Equal,
    {
        Legend { show_conflicts: true, show_line_blocks: false, spacing_mode: SpacingMode::default() }
    }
}

/// Which segments of a view are double tracked: key `i` stands for the
/// segment between the view's stations `i - 1` and `i`.
#[derive(Debug)]
pub struct SegmentState {
    pub double_tracked_segments: std::collections::HashSet<usize>,
}

/// Project storage in the browser's IndexedDB.
#[derive(Debug, Clone, Copy)]
pub struct IndexedDbStorage;

/// A fresh random `u64` identifier, from the thread-local generator of `rand`
/// (`rand::thread_rng().gen()`). Nothing is stated of the value: it is random.
#[verifier::external_body]
pub fn generate_id() -> u64 {
    rand::Rng::gen(&mut rand::thread_rng())
}

/// A fresh random identifier, for use as a default value.
pub fn generate_id_default() -> u64 {
    generate_id()
}


/// A fresh random id from `uuid::Uuid::new_v4`, in its hyphenated text form.
/// Nothing is stated of the value: it is random.
#[verifier::external_body]
fn new_project_id() -> String {
    uuid::Uuid::new_v4().to_string()
}

/// The metadata of a fresh copy of a project: a new random id, created and
/// updated at `now` (the caller's clock, as RFC 3339 text), and named
/// `new_name` when one is given, else as before.
pub fn regenerate_project_ids(metadata: ProjectMetadata, new_name: Option<String>, now: &str) -> (r: ProjectMetadata)
    ensures
        r.created_at@ == now@,
        r.updated_at@ == now@,
        r.name@ == match new_name {
            Some(n) => n@,
            None => metadata.name@,
        },
{
    let name = match new_name {
        Some(n) => n,
        None => metadata.name,
    };
    ProjectMetadata {
        id: new_project_id(),
        name,
        created_at: now.to_string(),
        updated_at: now.to_string(),
    }
}
} // verus!
