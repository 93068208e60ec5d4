//! Settings that belong to the user rather than to a project.

use vstd::prelude::*;
use crate::keyboard_shortcuts::{KeyboardShortcuts, defaults_map};

verus! {

/// User settings that persist across projects.
pub struct UserSettings {
    pub keyboard_shortcuts: KeyboardShortcuts,
}

impl Default for UserSettings {
    fn default() -> (r: Self)
        ensures
            r.keyboard_shortcuts.wf(),
            r.keyboard_shortcuts.view() == defaults_map(false),
    {
        UserSettings { keyboard_shortcuts: KeyboardShortcuts::default() }
    }
}

impl UserSettings {
    /// New settings with the default shortcuts.
    pub fn new() -> (r: Self)
        ensures
            r.keyboard_shortcuts.wf(),
            r.keyboard_shortcuts.view() == defaults_map(false),
    {
        Self::default()
    }
}

} // verus!
