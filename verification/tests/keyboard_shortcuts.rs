use nimby_graph::keyboard_shortcuts::{KeyboardShortcut, KeyboardShortcuts};

#[test]
fn test_format_modifiers_per_platform() {
    let s = KeyboardShortcut::ctrl_shift("KeyS");
    assert_eq!(s.format(true, false), "\u{2303}\u{21e7}S");
    assert_eq!(s.format(false, true), "Ctrl+Shift+S");
    assert_eq!(s.format(false, false), "Ctrl+Shift+S");
    let m = KeyboardShortcut::meta_shift("KeyZ");
    assert_eq!(m.format(false, true), "Win+Shift+Z");
    assert_eq!(m.format(false, false), "Meta+Shift+Z");
    assert_eq!(m.format(true, false), "\u{2318}\u{21e7}Z");
}

#[test]
fn test_format_key_names() {
    assert_eq!(KeyboardShortcut::key_only("Space").format(false, false), "Space");
    assert_eq!(KeyboardShortcut::key_only("Digit5").format(false, false), "5");
    assert_eq!(KeyboardShortcut::key_only("ArrowUp").format(false, false), "\u{2191}");
    assert_eq!(KeyboardShortcut::key_only("Equal").format(false, false), "=");
    assert_eq!(KeyboardShortcut::key_only("F5").format(false, false), "F5");
    let all = KeyboardShortcut::new("KeyA".to_string(), true, true, true, true);
    assert_eq!(all.format(false, false), "Meta+Ctrl+Alt+Shift+A");
}

#[test]
fn test_conflicts_with() {
    let a = KeyboardShortcut::key_only("KeyW");
    let b = KeyboardShortcut::key_only("KeyW");
    let c = KeyboardShortcut::ctrl_shift("KeyW");
    assert!(a.conflicts_with(&b));
    assert!(!a.conflicts_with(&c));
    assert!(!c.conflicts_with(&a));
}

#[test]
fn test_is_likely_browser_conflict() {
    assert!(KeyboardShortcut::new("KeyT".to_string(), true, false, false, false).is_likely_browser_conflict());
    assert!(KeyboardShortcut::new("KeyW".to_string(), false, false, false, true).is_likely_browser_conflict());
    assert!(!KeyboardShortcut::new("KeyT".to_string(), true, true, false, false).is_likely_browser_conflict());
    assert!(!KeyboardShortcut::key_only("KeyT").is_likely_browser_conflict());
    assert!(!KeyboardShortcut::new("KeyB".to_string(), true, false, false, false).is_likely_browser_conflict());
}

#[test]
fn test_default_shortcuts_lookup() {
    let d = KeyboardShortcuts::default_shortcuts(false);
    assert_eq!(d.get("pan_up"), Some(&KeyboardShortcut::key_only("KeyW")));
    assert_eq!(d.get("add_station"), Some(&KeyboardShortcut::ctrl_shift("KeyS")));
    assert_eq!(d.get("no_such_action"), None);
    let mac = KeyboardShortcuts::default_shortcuts(true);
    assert_eq!(mac.get("add_station"), Some(&KeyboardShortcut::meta_shift("KeyS")));
}

#[test]
fn test_find_action_and_set() {
    let mut d = KeyboardShortcuts::default_shortcuts(false);
    assert_eq!(d.find_action("KeyW", false, false, false, false), Some("pan_up"));
    assert_eq!(d.find_action("KeyW", true, false, false, false), None);
    d.set("pan_up", None);
    assert_eq!(d.get("pan_up"), None);
    assert_eq!(d.find_action("KeyW", false, false, false, false), None);
    d.set("pan_up", Some(KeyboardShortcut::key_only("KeyQ")));
    assert_eq!(d.get("pan_up"), Some(&KeyboardShortcut::key_only("KeyQ")));
    assert_eq!(d.find_action("KeyQ", false, false, false, false), Some("pan_up"));
}

#[test]
fn test_check_conflicts() {
    let d = KeyboardShortcuts::default_shortcuts(false);
    let w = KeyboardShortcut::key_only("KeyW");
    assert_eq!(d.check_conflicts(&w, None), vec!["pan_up".to_string()]);
    assert!(d.check_conflicts(&w, Some("pan_up")).is_empty());
    assert!(d.check_conflicts(&KeyboardShortcut::key_only("F9"), None).is_empty());
}

#[test]
fn test_merge_with_defaults_keeps_user_choice() {
    let mut d = KeyboardShortcuts::default_shortcuts(false);
    d.set("pan_up", Some(KeyboardShortcut::key_only("KeyQ")));
    d.set("pan_left", None);
    d.merge_with_defaults(false);
    assert_eq!(d.get("pan_up"), Some(&KeyboardShortcut::key_only("KeyQ")));
    assert_eq!(d.get("pan_left"), None);
    assert_eq!(d.get("pan_down"), Some(&KeyboardShortcut::key_only("KeyS")));
}

#[test]
fn test_all_metadata_and_categories() {
    let all = KeyboardShortcuts::get_all_metadata();
    assert!(all.iter().any(|(id, _)| id == "pan_up"));
    let ordered = KeyboardShortcuts::get_all_ordered();
    let total: usize = ordered.iter().map(|(_, v)| v.len()).sum();
    assert_eq!(total, all.len());
}

#[test]
fn test_shortcuts_lists_each_entry_once() {
    let mut d = KeyboardShortcuts::default_shortcuts(false);
    d.set("custom_action", Some(KeyboardShortcut::key_only("F2")));
    let entries = d.shortcuts();
    assert_eq!(entries.iter().filter(|(id, _)| id == "pan_up").count(), 1);
    assert!(entries.iter().any(|(id, s)| id == "custom_action" && s == &Some(KeyboardShortcut::key_only("F2"))));
    assert_eq!(entries.len(), KeyboardShortcuts::get_all_metadata().len() + 1);
}

#[test]
fn every_default_shortcut_finds_its_action() {
    for is_mac in [false, true] {
        let d = KeyboardShortcuts::default_shortcuts(is_mac);
        assert_eq!(d.shortcuts().len(), 20);
        for (id, s) in d.shortcuts() {
            let s = s.as_ref().expect("every default action is bound");
            assert_eq!(d.find_action(&s.code, s.ctrl, s.shift, s.alt, s.meta), Some(id.as_str()));
        }
    }
}
