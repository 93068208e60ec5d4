//! Keyboard shortcut definitions and the user's shortcut registry.

use vstd::prelude::*;
use crate::text::{join_seq, has_prefix, str_eq, chars_of, starts_with_chars, string_of};

verus! {

/// Abstract value of a shortcut: key code and the Ctrl, Shift, Alt, Meta flags.
pub type ShortcutView = (Seq<char>, bool, bool, bool, bool);

/// Keyboard shortcut definition.
#[derive(Clone, Debug, Eq, Hash)]
pub struct KeyboardShortcut {
    /// The key code (e.g. `"KeyW"`, `"Equal"`, `"Space"`)
    pub code: String,
    /// Whether Ctrl (or Cmd on Mac) is required
    pub ctrl: bool,
    /// Whether Shift is required
    pub shift: bool,
    /// Whether Alt is required
    pub alt: bool,
    /// Whether Meta (Cmd on Mac) is required
    pub meta: bool,
}

impl View for KeyboardShortcut {
    type V = ShortcutView;

    open spec fn view(&self) -> ShortcutView {
        (self.code@, self.ctrl, self.shift, self.alt, self.meta)
    }
}

impl PartialEq for KeyboardShortcut {
    fn eq(&self, other: &Self) -> (r: bool) {
        self.code == other.code && self.ctrl == other.ctrl && self.shift == other.shift
            && self.alt == other.alt && self.meta == other.meta
    }
}

impl vstd::std_specs::cmp::PartialEqSpecImpl for KeyboardShortcut {
    open spec fn obeys_eq_spec() -> bool {
        true
    }

    open spec fn eq_spec(&self, other: &Self) -> bool {
        self@ == other@
    }
}

/// Display name of a key code.
pub open spec fn code_display_spec(code: Seq<char>) -> Seq<char> {
    if code == "Space"@ { "Space"@ }
    else if code == "Equal"@ { "="@ }
    else if code == "Minus"@ { "-"@ }
    else if code == "Comma"@ { ","@ }
    else if code == "Period"@ { "."@ }
    else if code == "Semicolon"@ { ";"@ }
    else if code == "Quote"@ { "'"@ }
    else if code == "Backquote"@ { "`"@ }
    else if code == "Slash"@ { "/"@ }
    else if code == "Backslash"@ { "\\"@ }
    else if code == "BracketLeft"@ { "["@ }
    else if code == "BracketRight"@ { "]"@ }
    else if code == "ArrowUp"@ { "\u{2191}"@ }
    else if code == "ArrowDown"@ { "\u{2193}"@ }
    else if code == "ArrowLeft"@ { "\u{2190}"@ }
    else if code == "ArrowRight"@ { "\u{2192}"@ }
    else if code == "NumpadAdd"@ { "Numpad+"@ }
    else if code == "NumpadSubtract"@ { "Numpad-"@ }
    else if code == "NumpadMultiply"@ { "Numpad*"@ }
    else if code == "NumpadDivide"@ { "Numpad/"@ }
    else if code == "NumpadDecimal"@ { "Numpad."@ }
    else if has_prefix(code, "Key"@) { code.subrange(3, code.len() as int) }
    else if has_prefix(code, "Digit"@) { code.subrange(5, code.len() as int) }
    else { code }
}

/// Modifier names for a platform: (ctrl, alt, shift, meta, separator).
pub open spec fn modifier_names(is_mac: bool, is_windows: bool) -> (Seq<char>, Seq<char>, Seq<char>, Seq<char>, Seq<char>) {
    if is_mac {
        ("\u{2303}"@, "\u{2325}"@, "\u{21e7}"@, "\u{2318}"@, ""@)
    } else if is_windows {
        ("Ctrl"@, "Alt"@, "Shift"@, "Win"@, "+"@)
    } else {
        ("Ctrl"@, "Alt"@, "Shift"@, "Meta"@, "+"@)
    }
}

/// The parts of a formatted shortcut: modifiers (Meta, Ctrl, Alt, Shift) then the key.
pub open spec fn format_parts(s: ShortcutView, is_mac: bool, is_windows: bool) -> Seq<Seq<char>> {
    let n = modifier_names(is_mac, is_windows);
    let p0: Seq<Seq<char>> = Seq::empty();
    let p1 = if s.4 { p0.push(n.3) } else { p0 };
    let p2 = if s.1 { p1.push(n.0) } else { p1 };
    let p3 = if s.3 { p2.push(n.1) } else { p2 };
    let p4 = if s.2 { p3.push(n.2) } else { p3 };
    p4.push(code_display_spec(s.0))
}

/// The formatted text of a shortcut.
pub open spec fn format_spec(s: ShortcutView, is_mac: bool, is_windows: bool) -> Seq<char> {
    join_seq(format_parts(s, is_mac, is_windows), modifier_names(is_mac, is_windows).4)
}

/// Key codes whose Ctrl/Cmd combination the browser already uses.
pub open spec fn browser_conflict_code(code: Seq<char>) -> bool {
    code == "KeyT"@ || code == "KeyW"@ || code == "KeyN"@ || code == "KeyR"@ || code == "KeyF"@
        || code == "KeyP"@ || code == "KeyS"@ || code == "KeyO"@ || code == "KeyA"@
        || code == "KeyC"@ || code == "KeyV"@ || code == "KeyX"@ || code == "KeyZ"@
        || code == "KeyY"@
}

/// The letters of the browser's own Ctrl/Cmd shortcuts: new tab (T), close
/// tab (W), new window (N), reload (R), find (F), print (P), save (S), open
/// (O), select all (A), copy (C), paste (V), cut (X), undo (Z), redo (Y).
pub open spec fn browser_letter(l: char) -> bool {
    l == 'T' || l == 'W' || l == 'N' || l == 'R' || l == 'F' || l == 'P' || l == 'S' || l == 'O' || l == 'A'
        || l == 'C' || l == 'V' || l == 'X' || l == 'Z' || l == 'Y'
}

/// A shortcut is reported as a likely browser conflict (see
/// `KeyboardShortcut::is_likely_browser_conflict`) exactly when it holds Ctrl
/// or Cmd, neither Shift nor Alt, and its key is the letter key of one of the
/// browser's shortcuts (`Key` followed by a `browser_letter`).
pub proof fn law_browser_conflicts(s: ShortcutView)
    ensures
        (browser_conflict_code(s.0) && (s.1 || s.4) && !s.2 && !s.3) <==> {
            &&& s.1 || s.4
            &&& !s.2
            &&& !s.3
            &&& s.0.len() == 4
            &&& s.0[0] == 'K' && s.0[1] == 'e' && s.0[2] == 'y'
            &&& browser_letter(s.0[3])
        },
{
    reveal_strlit("KeyT");
    reveal_strlit("KeyW");
    reveal_strlit("KeyN");
    reveal_strlit("KeyR");
    reveal_strlit("KeyF");
    reveal_strlit("KeyP");
    reveal_strlit("KeyS");
    reveal_strlit("KeyO");
    reveal_strlit("KeyA");
    reveal_strlit("KeyC");
    reveal_strlit("KeyV");
    reveal_strlit("KeyX");
    reveal_strlit("KeyZ");
    reveal_strlit("KeyY");
    let c = s.0;
    if c.len() == 4 && c[0] == 'K' && c[1] == 'e' && c[2] == 'y' {
        let l = c[3];
        if l == 'T' { assert(c =~= "KeyT"@); }
        if l == 'W' { assert(c =~= "KeyW"@); }
        if l == 'N' { assert(c =~= "KeyN"@); }
        if l == 'R' { assert(c =~= "KeyR"@); }
        if l == 'F' { assert(c =~= "KeyF"@); }
        if l == 'P' { assert(c =~= "KeyP"@); }
        if l == 'S' { assert(c =~= "KeyS"@); }
        if l == 'O' { assert(c =~= "KeyO"@); }
        if l == 'A' { assert(c =~= "KeyA"@); }
        if l == 'C' { assert(c =~= "KeyC"@); }
        if l == 'V' { assert(c =~= "KeyV"@); }
        if l == 'X' { assert(c =~= "KeyX"@); }
        if l == 'Z' { assert(c =~= "KeyZ"@); }
        if l == 'Y' { assert(c =~= "KeyY"@); }
    }
}

fn append_part(out: &mut String, count: &mut usize, sep: &str, part: &str, Ghost(parts): Ghost<Seq<Seq<char>>>)
    requires
        *old(count) == parts.len(),
        *old(count) < usize::MAX,
        old(out)@ == join_seq(parts, sep@),
    ensures
        *final(count) == parts.len() + 1,
        final(out)@ == join_seq(parts.push(part@), sep@),
{
    assert(parts.push(part@).drop_last() =~= parts);
    if *count > 0 {
        out.append(sep);
    }
    out.append(part);
    *count = *count + 1;
}

impl KeyboardShortcut {
    /// Create a new keyboard shortcut.
    pub fn new(code: String, ctrl: bool, shift: bool, alt: bool, meta: bool) -> (r: Self)
        ensures
            r@ == (code@, ctrl, shift, alt, meta),
    {
        KeyboardShortcut { code, ctrl, shift, alt, meta }
    }

    /// Create a shortcut with just a key code (no modifiers).
    pub fn key_only(code: &str) -> (r: Self)
        ensures
            r@ == (code@, false, false, false, false),
    {
        Self::new(String::from_str(code), false, false, false, false)
    }

    /// Create a shortcut with Ctrl + Shift + key.
    pub fn ctrl_shift(code: &str) -> (r: Self)
        ensures
            r@ == (code@, true, true, false, false),
    {
        Self::new(String::from_str(code), true, true, false, false)
    }

    /// Create a shortcut with Cmd (Meta) + Shift + key.
    pub fn meta_shift(code: &str) -> (r: Self)
        ensures
            r@ == (code@, false, true, false, true),
    {
        Self::new(String::from_str(code), false, true, false, true)
    }

    /// A copy with the same code and modifiers.
    pub fn copy(&self) -> (r: Self)
        ensures
            r@ == self@,
    {
        KeyboardShortcut {
            code: self.code.clone(),
            ctrl: self.ctrl,
            shift: self.shift,
            alt: self.alt,
            meta: self.meta,
        }
    }

    /// Format the shortcut for display.
    pub fn format(&self, is_mac: bool, is_windows: bool) -> (r: String)
        ensures
            r@ == format_spec(self@, is_mac, is_windows),
    {
        let (ctrl_name, alt_name, shift_name, meta_name, separator) = if is_mac {
            ("\u{2303}", "\u{2325}", "\u{21e7}", "\u{2318}", "")
        } else if is_windows {
            ("Ctrl", "Alt", "Shift", "Win", "+")
        } else {
            ("Ctrl", "Alt", "Shift", "Meta", "+")
        };
        let ghost names = modifier_names(is_mac, is_windows);
        assert(ctrl_name@ == names.0 && alt_name@ == names.1 && shift_name@ == names.2
            && meta_name@ == names.3 && separator@ == names.4);
        let mut out = String::new();
        let mut count: usize = 0;
        let ghost mut parts: Seq<Seq<char>> = Seq::empty();
        if self.meta {
            append_part(&mut out, &mut count, separator, meta_name, Ghost(parts));
            proof { parts = parts.push(names.3); }
        }
        if self.ctrl {
            append_part(&mut out, &mut count, separator, ctrl_name, Ghost(parts));
            proof { parts = parts.push(names.0); }
        }
        if self.alt {
            append_part(&mut out, &mut count, separator, alt_name, Ghost(parts));
            proof { parts = parts.push(names.1); }
        }
        if self.shift {
            append_part(&mut out, &mut count, separator, shift_name, Ghost(parts));
            proof { parts = parts.push(names.2); }
        }
        let key_name = self.code_to_display_name();
        append_part(&mut out, &mut count, separator, key_name.as_str(), Ghost(parts));
        proof {
            parts = parts.push(key_name@);
            assert(parts =~= format_parts(self@, is_mac, is_windows));
        }
        out
    }

    /// Convert a key code to a display name.
    fn code_to_display_name(&self) -> (r: String)
        ensures
            r@ == code_display_spec(self.code@),
    {
        let c = self.code.as_str();
        if str_eq(c, "Space") { return String::from_str("Space"); }
        if str_eq(c, "Equal") { return String::from_str("="); }
        if str_eq(c, "Minus") { return String::from_str("-"); }
        if str_eq(c, "Comma") { return String::from_str(","); }
        if str_eq(c, "Period") { return String::from_str("."); }
        if str_eq(c, "Semicolon") { return String::from_str(";"); }
        if str_eq(c, "Quote") { return String::from_str("'"); }
        if str_eq(c, "Backquote") { return String::from_str("`"); }
        if str_eq(c, "Slash") { return String::from_str("/"); }
        if str_eq(c, "Backslash") { return String::from_str("\\"); }
        if str_eq(c, "BracketLeft") { return String::from_str("["); }
        if str_eq(c, "BracketRight") { return String::from_str("]"); }
        if str_eq(c, "ArrowUp") { return String::from_str("\u{2191}"); }
        if str_eq(c, "ArrowDown") { return String::from_str("\u{2193}"); }
        if str_eq(c, "ArrowLeft") { return String::from_str("\u{2190}"); }
        if str_eq(c, "ArrowRight") { return String::from_str("\u{2192}"); }
        if str_eq(c, "NumpadAdd") { return String::from_str("Numpad+"); }
        if str_eq(c, "NumpadSubtract") { return String::from_str("Numpad-"); }
        if str_eq(c, "NumpadMultiply") { return String::from_str("Numpad*"); }
        if str_eq(c, "NumpadDivide") { return String::from_str("Numpad/"); }
        if str_eq(c, "NumpadDecimal") { return String::from_str("Numpad."); }
        let cs = chars_of(c);
        let key = chars_of("Key");
        if starts_with_chars(&cs, &key) {
            proof { reveal_strlit("Key"); }
            return string_of(&cs, 3, cs.len());
        }
        let digit = chars_of("Digit");
        if starts_with_chars(&cs, &digit) {
            proof { reveal_strlit("Digit"); }
            return string_of(&cs, 5, cs.len());
        }
        self.code.clone()
    }

    /// Check if this shortcut conflicts with another.
    pub fn conflicts_with(&self, other: &KeyboardShortcut) -> (r: bool)
        ensures
            r == (self@ == other@),
    {
        self == other
    }

    /// Check if this shortcut is likely to conflict with common browser/OS shortcuts.
    pub fn is_likely_browser_conflict(&self) -> (r: bool)
        ensures
            r == (browser_conflict_code(self.code@) && (self.ctrl || self.meta) && !self.shift
                && !self.alt),
    {
        if !(self.ctrl || self.meta) || self.shift || self.alt {
            return false;
        }
        let c = self.code.as_str();
        str_eq(c, "KeyT") || str_eq(c, "KeyW") || str_eq(c, "KeyN") || str_eq(c, "KeyR")
            || str_eq(c, "KeyF") || str_eq(c, "KeyP") || str_eq(c, "KeyS") || str_eq(c, "KeyO")
            || str_eq(c, "KeyA") || str_eq(c, "KeyC") || str_eq(c, "KeyV") || str_eq(c, "KeyX")
            || str_eq(c, "KeyZ") || str_eq(c, "KeyY")
    }
}

/// Shortcut category.
#[derive(Debug, Clone, Copy, PartialEq, Eq, Hash, Structural)]
pub enum ShortcutCategory {
    Navigation,
    Infrastructure,
    Project,
}

/// Name of a category.
pub open spec fn category_name(c: ShortcutCategory) -> Seq<char> {
    match c {
        ShortcutCategory::Navigation => "Navigation"@,
        ShortcutCategory::Infrastructure => "Infrastructure"@,
        ShortcutCategory::Project => "Project"@,
    }
}

impl ShortcutCategory {
    pub fn as_str(&self) -> (r: &'static str)
        ensures
            r@ == category_name(*self),
    {
        match self {
            ShortcutCategory::Navigation => "Navigation",
            ShortcutCategory::Infrastructure => "Infrastructure",
            ShortcutCategory::Project => "Project",
        }
    }
}

/// Shortcut entry with metadata.
pub struct ShortcutEntry {
    pub id: &'static str,
    pub description: &'static str,
    pub category: ShortcutCategory,
    pub default_shortcut: KeyboardShortcut,
}

/// Abstract value of a shortcut entry: id, description, category, default shortcut.
pub type EntryView = (Seq<char>, Seq<char>, ShortcutCategory, ShortcutView);

impl View for ShortcutEntry {
    type V = EntryView;

    open spec fn view(&self) -> EntryView {
        (self.id@, self.description@, self.category, self.default_shortcut@)
    }
}

/// Shortcut metadata (description and category).
#[derive(Debug, Clone)]
pub struct ShortcutMetadata {
    pub description: &'static str,
    pub category: ShortcutCategory,
}

/// Every shortcut the application offers, in definition order; the default
/// key combinations of the platform-dependent ones use Cmd on a Mac and Ctrl elsewhere.
pub open spec fn definitions_spec(is_mac: bool) -> Seq<EntryView> {
    seq![
        ("pan_up"@, "Pan Up"@, ShortcutCategory::Navigation, ("KeyW"@, false, false, false, false)),
        ("pan_left"@, "Pan Left"@, ShortcutCategory::Navigation, ("KeyA"@, false, false, false, false)),
        ("pan_down"@, "Pan Down"@, ShortcutCategory::Navigation, ("KeyS"@, false, false, false, false)),
        ("pan_right"@, "Pan Right"@, ShortcutCategory::Navigation, ("KeyD"@, false, false, false, false)),
        ("pan_toggle"@, "Toggle Pan Mode"@, ShortcutCategory::Navigation, ("Space"@, false, false, false, false)),
        ("zoom_in"@, "Zoom In"@, ShortcutCategory::Navigation, ("Equal"@, false, false, false, false)),
        ("zoom_out"@, "Zoom Out"@, ShortcutCategory::Navigation, ("Minus"@, false, false, false, false)),
        ("horizontal_scale_increase"@, "Horizontal Scale Increase"@, ShortcutCategory::Navigation, ("BracketRight"@, false, false, false, false)),
        ("horizontal_scale_decrease"@, "Horizontal Scale Decrease"@, ShortcutCategory::Navigation, ("BracketLeft"@, false, false, false, false)),
        ("reset_view"@, "Reset View"@, ShortcutCategory::Navigation, ("KeyR"@, false, false, false, false)),
        ("add_station"@, "Add Station"@, ShortcutCategory::Infrastructure, (if is_mac { ("KeyS"@, false, true, false, true) } else { ("KeyS"@, true, true, false, false) })),
        ("add_track"@, "Add Track"@, ShortcutCategory::Infrastructure, (if is_mac { ("KeyT"@, false, true, false, true) } else { ("KeyT"@, true, true, false, false) })),
        ("add_junction"@, "Add Junction"@, ShortcutCategory::Infrastructure, (if is_mac { ("KeyJ"@, false, true, false, true) } else { ("KeyJ"@, true, true, false, false) })),
        ("create_view"@, "Create View"@, ShortcutCategory::Infrastructure, (if is_mac { ("KeyN"@, false, true, false, true) } else { ("KeyN"@, true, true, false, false) })),
        ("manage_projects"@, "Manage Projects"@, ShortcutCategory::Project, (if is_mac { ("KeyM"@, false, true, false, true) } else { ("KeyM"@, true, true, false, false) })),
        ("create_line"@, "Create Line"@, ShortcutCategory::Project, (if is_mac { ("KeyL"@, false, true, false, true) } else { ("KeyL"@, true, true, false, false) })),
        ("import_data"@, "Import Data"@, ShortcutCategory::Project, (if is_mac { ("KeyO"@, false, true, false, true) } else { ("KeyO"@, true, true, false, false) })),
        ("open_settings"@, "Open Settings"@, ShortcutCategory::Project, ("Comma"@, true, false, false, false)),
        ("undo"@, "Undo"@, ShortcutCategory::Project, (if is_mac { ("KeyZ"@, false, false, false, true) } else { ("KeyZ"@, true, false, false, false) })),
        ("redo"@, "Redo"@, ShortcutCategory::Project, (if is_mac { ("KeyZ"@, false, true, false, true) } else { ("KeyY"@, true, false, false, false) }))
    ]
}

/// Cmd+Shift+key on a Mac, Ctrl+Shift+key elsewhere.
fn primary_shift(is_mac: bool, code: &str) -> (r: KeyboardShortcut)
    ensures
        r@ == (if is_mac { (code@, false, true, false, true) } else { (code@, true, true, false, false) }),
{
    if is_mac {
        KeyboardShortcut::meta_shift(code)
    } else {
        KeyboardShortcut::ctrl_shift(code)
    }
}

/// Get all shortcut definitions.
fn get_all_shortcut_definitions(is_mac: bool) -> (r: Vec<ShortcutEntry>)
    ensures
        r@.map_values(|e: ShortcutEntry| e@) == definitions_spec(is_mac),
{
    let mut v: Vec<ShortcutEntry> = Vec::new();
    v.push(ShortcutEntry {
        id: "pan_up",
        description: "Pan Up",
        category: ShortcutCategory::Navigation,
        default_shortcut: KeyboardShortcut::key_only("KeyW"),
    });
    v.push(ShortcutEntry {
        id: "pan_left",
        description: "Pan Left",
        category: ShortcutCategory::Navigation,
        default_shortcut: KeyboardShortcut::key_only("KeyA"),
    });
    v.push(ShortcutEntry {
        id: "pan_down",
        description: "Pan Down",
        category: ShortcutCategory::Navigation,
        default_shortcut: KeyboardShortcut::key_only("KeyS"),
    });
    v.push(ShortcutEntry {
        id: "pan_right",
        description: "Pan Right",
        category: ShortcutCategory::Navigation,
        default_shortcut: KeyboardShortcut::key_only("KeyD"),
    });
    v.push(ShortcutEntry {
        id: "pan_toggle",
        description: "Toggle Pan Mode",
        category: ShortcutCategory::Navigation,
        default_shortcut: KeyboardShortcut::key_only("Space"),
    });
    v.push(ShortcutEntry {
        id: "zoom_in",
        description: "Zoom In",
        category: ShortcutCategory::Navigation,
        default_shortcut: KeyboardShortcut::key_only("Equal"),
    });
    v.push(ShortcutEntry {
        id: "zoom_out",
        description: "Zoom Out",
        category: ShortcutCategory::Navigation,
        default_shortcut: KeyboardShortcut::key_only("Minus"),
    });
    v.push(ShortcutEntry {
        id: "horizontal_scale_increase",
        description: "Horizontal Scale Increase",
        category: ShortcutCategory::Navigation,
        default_shortcut: KeyboardShortcut::key_only("BracketRight"),
    });
    v.push(ShortcutEntry {
        id: "horizontal_scale_decrease",
        description: "Horizontal Scale Decrease",
        category: ShortcutCategory::Navigation,
        default_shortcut: KeyboardShortcut::key_only("BracketLeft"),
    });
    v.push(ShortcutEntry {
        id: "reset_view",
        description: "Reset View",
        category: ShortcutCategory::Navigation,
        default_shortcut: KeyboardShortcut::key_only("KeyR"),
    });
    v.push(ShortcutEntry {
        id: "add_station",
        description: "Add Station",
        category: ShortcutCategory::Infrastructure,
        default_shortcut: primary_shift(is_mac, "KeyS"),
    });
    v.push(ShortcutEntry {
        id: "add_track",
        description: "Add Track",
        category: ShortcutCategory::Infrastructure,
        default_shortcut: primary_shift(is_mac, "KeyT"),
    });
    v.push(ShortcutEntry {
        id: "add_junction",
        description: "Add Junction",
        category: ShortcutCategory::Infrastructure,
        default_shortcut: primary_shift(is_mac, "KeyJ"),
    });
    v.push(ShortcutEntry {
        id: "create_view",
        description: "Create View",
        category: ShortcutCategory::Infrastructure,
        default_shortcut: primary_shift(is_mac, "KeyN"),
    });
    v.push(ShortcutEntry {
        id: "manage_projects",
        description: "Manage Projects",
        category: ShortcutCategory::Project,
        default_shortcut: primary_shift(is_mac, "KeyM"),
    });
    v.push(ShortcutEntry {
        id: "create_line",
        description: "Create Line",
        category: ShortcutCategory::Project,
        default_shortcut: primary_shift(is_mac, "KeyL"),
    });
    v.push(ShortcutEntry {
        id: "import_data",
        description: "Import Data",
        category: ShortcutCategory::Project,
        default_shortcut: primary_shift(is_mac, "KeyO"),
    });
    v.push(ShortcutEntry {
        id: "open_settings",
        description: "Open Settings",
        category: ShortcutCategory::Project,
        default_shortcut: KeyboardShortcut::new(String::from_str("Comma"), true, false, false, false),
    });
    v.push(ShortcutEntry {
        id: "undo",
        description: "Undo",
        category: ShortcutCategory::Project,
        default_shortcut: if is_mac { KeyboardShortcut::new(String::from_str("KeyZ"), false, false, false, true) } else { KeyboardShortcut::new(String::from_str("KeyZ"), true, false, false, false) },
    });
    v.push(ShortcutEntry {
        id: "redo",
        description: "Redo",
        category: ShortcutCategory::Project,
        default_shortcut: if is_mac { KeyboardShortcut::new(String::from_str("KeyZ"), false, true, false, true) } else { KeyboardShortcut::new(String::from_str("KeyY"), true, false, false, false) },
    });
    assert(v@.map_values(|e: ShortcutEntry| e@) =~= definitions_spec(is_mac));
    v
}

/// Abstract value of an optional shortcut.
pub open spec fn opt_view(o: Option<KeyboardShortcut>) -> Option<ShortcutView> {
    match o {
        Some(s) => Some(s@),
        None => None,
    }
}

/// The shortcut table that inserting the definitions `d` in order produces
/// (a later definition of the same id replaces an earlier one).
pub open spec fn fold_definitions(d: Seq<EntryView>) -> Map<Seq<char>, Option<ShortcutView>>
    decreases d.len(),
{
    if d.len() == 0 {
        Map::empty()
    } else {
        fold_definitions(d.drop_last()).insert(d.last().0, Some(d.last().3))
    }
}

/// The default shortcut table of a platform.
pub open spec fn defaults_map(is_mac: bool) -> Map<Seq<char>, Option<ShortcutView>> {
    fold_definitions(definitions_spec(is_mac))
}

/// Id, description and category of each definition, in definition order.
pub open spec fn metadata_spec() -> Seq<(Seq<char>, Seq<char>, ShortcutCategory)> {
    definitions_spec(false).map_values(|e: EntryView| (e.0, e.1, e.2))
}

/// Id and description of the entries of `m` in category `c`, in order.
pub open spec fn in_category(m: Seq<(Seq<char>, Seq<char>, ShortcutCategory)>, c: ShortcutCategory) -> Seq<(Seq<char>, Seq<char>)>
    decreases m.len(),
{
    if m.len() == 0 {
        Seq::empty()
    } else if m.last().2 == c {
        in_category(m.drop_last(), c).push((m.last().0, m.last().1))
    } else {
        in_category(m.drop_last(), c)
    }
}

/// The ids that `check_conflicts` reports for shortcut `s`, given the id the
/// lookup index holds for each shortcut and the id to leave out.
pub open spec fn conflicts_spec(indexed: Map<ShortcutView, Seq<char>>, s: ShortcutView, exclude: Option<Seq<char>>) -> Seq<Seq<char>> {
    if indexed.contains_key(s) && exclude != Some(indexed[s]) {
        seq![indexed[s]]
    } else {
        Seq::empty()
    }
}

/// All available keyboard shortcuts: the user's table from action id to
/// (optional) shortcut, with a lookup index from shortcut to action id.
#[derive(Debug, Clone)]
pub struct KeyboardShortcuts {
    entries: Vec<(String, Option<KeyboardShortcut>)>,
    index: Vec<(KeyboardShortcut, String)>,
}

impl KeyboardShortcuts {
    /// Id of entry `i`.
    pub closed spec fn eid(&self, i: int) -> Seq<char> {
        self.entries@[i].0@
    }

    /// Shortcut of entry `i`.
    pub closed spec fn eval(&self, i: int) -> Option<ShortcutView> {
        opt_view(self.entries@[i].1)
    }

    /// Shortcut of index slot `j`.
    pub closed spec fn kview(&self, j: int) -> ShortcutView {
        self.index@[j].0@
    }

    /// Action id of index slot `j`.
    pub closed spec fn kid(&self, j: int) -> Seq<char> {
        self.index@[j].1@
    }

    pub closed spec fn ids_unique(&self) -> bool {
        forall|i: int, j: int|
            0 <= i < self.entries@.len() && 0 <= j < self.entries@.len() && i != j
                ==> #[trigger] self.eid(i) != #[trigger] self.eid(j)
    }

    closed spec fn keys_unique(&self) -> bool {
        forall|i: int, j: int|
            0 <= i < self.index@.len() && 0 <= j < self.index@.len() && i != j
                ==> #[trigger] self.kview(i) != #[trigger] self.kview(j)
    }

    closed spec fn index_sound(&self) -> bool {
        forall|j: int| 0 <= j < self.index@.len() ==> #[trigger] self.slot_backed(j)
    }

    /// Index slot `j` names an entry bound to the slot's shortcut.
    closed spec fn slot_backed(&self, j: int) -> bool {
        exists|i: int|
            0 <= i < self.entries@.len() && #[trigger] self.eid(i) == self.kid(j)
                && self.eval(i) == Some(self.kview(j))
    }

    closed spec fn index_complete_upto(&self, n: int) -> bool {
        forall|i: int|
            0 <= i < n && (#[trigger] self.eval(i)) is Some ==> exists|j: int|
                0 <= j < self.index@.len() && Some(#[trigger] self.kview(j)) == self.eval(i)
    }

    /// Well-formedness: ids are unique, and the index maps exactly the
    /// bound shortcuts to one action id bound to them.
    pub closed spec fn wf(&self) -> bool {
        &&& self.ids_unique()
        &&& self.keys_unique()
        &&& self.index_sound()
        &&& self.index_complete_upto(self.entries@.len() as int)
    }

    /// The table: action id to optional shortcut.
    pub closed spec fn view(&self) -> Map<Seq<char>, Option<ShortcutView>> {
        Map::new(
            |k: Seq<char>| exists|i: int| 0 <= i < self.entries@.len() && self.eid(i) == k,
            |k: Seq<char>| self.eval(choose|i: int| 0 <= i < self.entries@.len() && self.eid(i) == k),
        )
    }

    /// The table's entries: every action id once, with its shortcut.
    pub fn shortcuts(&self) -> (r: &Vec<(String, Option<KeyboardShortcut>)>)
        requires
            self.wf(),
        ensures
            forall|k: Seq<char>| self.view().contains_key(k) <==> exists|i: int| 0 <= i < r@.len() && (#[trigger] r@[i]).0@ == k,
            forall|i: int| 0 <= i < r@.len() ==> self.view().contains_key((#[trigger] r@[i]).0@) && self.view()[r@[i].0@] == opt_view(r@[i].1),
            forall|i: int, j: int| 0 <= i < r@.len() && 0 <= j < r@.len() && i != j ==> (#[trigger] r@[i]).0@ != (#[trigger] r@[j]).0@,
    {
        proof {
            assert forall|i: int| 0 <= i < self.entries@.len() implies self.view().contains_key((#[trigger] self.entries@[i]).0@) && self.view()[self.entries@[i].0@] == opt_view(self.entries@[i].1) by {
                self.lemma_view_at(i);
            }
            assert forall|i: int, j: int| 0 <= i < self.entries@.len() && 0 <= j < self.entries@.len() && i != j
                implies (#[trigger] self.entries@[i]).0@ != (#[trigger] self.entries@[j]).0@ by {
                assert(self.eid(i) != self.eid(j));
            }
            assert forall|k: Seq<char>| self.view().contains_key(k) <==> exists|i: int| 0 <= i < self.entries@.len() && (#[trigger] self.entries@[i]).0@ == k by {
                if self.view().contains_key(k) {
                    let i = choose|i: int| 0 <= i < self.entries@.len() && self.eid(i) == k;
                    assert(self.entries@[i].0@ == k);
                }
                if exists|i: int| 0 <= i < self.entries@.len() && (#[trigger] self.entries@[i]).0@ == k {
                    let i = choose|i: int| 0 <= i < self.entries@.len() && (#[trigger] self.entries@[i]).0@ == k;
                    assert(self.eid(i) == k);
                }
            }
        }
        &self.entries
    }

    /// The lookup index: shortcut to the action id it triggers.
    pub closed spec fn indexed(&self) -> Map<ShortcutView, Seq<char>> {
        Map::new(
            |s: ShortcutView| exists|j: int| 0 <= j < self.index@.len() && self.kview(j) == s,
            |s: ShortcutView| self.kid(choose|j: int| 0 <= j < self.index@.len() && self.kview(j) == s),
        )
    }

    proof fn lemma_same_entries(&self, other: &Self)
        requires
            self.entries@ == other.entries@,
            self.ids_unique(),
        ensures
            self.view() == other.view(),
    {
        assert forall|i: int| #[trigger] other.eid(i) == self.eid(i) && other.eval(i) == self.eval(i) by {}
        assert forall|a: int, b: int|
            0 <= a < other.entries@.len() && 0 <= b < other.entries@.len() && a != b
                implies #[trigger] other.eid(a) != #[trigger] other.eid(b) by {
            assert(self.eid(a) != self.eid(b));
        }
        assert forall|k: Seq<char>| #[trigger] self.view().contains_key(k) == other.view().contains_key(k) by {
            if self.view().contains_key(k) {
                let i = choose|i: int| 0 <= i < self.entries@.len() && self.eid(i) == k;
                assert(other.eid(i) == k);
            }
            if other.view().contains_key(k) {
                let i = choose|i: int| 0 <= i < other.entries@.len() && other.eid(i) == k;
                assert(self.eid(i) == k);
            }
        }
        assert forall|k: Seq<char>| #[trigger] self.view().contains_key(k)
            implies self.view()[k] == other.view()[k] by {
            let i = choose|i: int| 0 <= i < self.entries@.len() && self.eid(i) == k;
            self.lemma_view_at(i);
            other.lemma_view_at(i);
        }
        assert(self.view() =~= other.view());
    }

    proof fn lemma_view_at(&self, i: int)
        requires
            self.ids_unique(),
            0 <= i < self.entries@.len(),
        ensures
            self.view().contains_key(self.eid(i)),
            self.view()[self.eid(i)] == self.eval(i),
    {
        let k = self.eid(i);
        assert(exists|c: int| 0 <= c < self.entries@.len() && self.eid(c) == k);
        let c = choose|c: int| 0 <= c < self.entries@.len() && self.eid(c) == k;
        assert(c == i);
    }

    proof fn lemma_view_absent(&self, k: Seq<char>)
        requires
            forall|i: int| 0 <= i < self.entries@.len() ==> self.eid(i) != k,
        ensures
            !self.view().contains_key(k),
    {
    }

    proof fn lemma_indexed_at(&self, j: int)
        requires
            self.keys_unique(),
            0 <= j < self.index@.len(),
        ensures
            self.indexed().contains_key(self.kview(j)),
            self.indexed()[self.kview(j)] == self.kid(j),
    {
        let s = self.kview(j);
        assert(exists|c: int| 0 <= c < self.index@.len() && self.kview(c) == s);
        let c = choose|c: int| 0 <= c < self.index@.len() && self.kview(c) == s;
        assert(c == j);
    }

    /// The index and the table agree: an indexed shortcut leads to an action
    /// bound to it, and every bound shortcut is indexed.
    pub proof fn lemma_index_consistent(&self)
        requires
            self.wf(),
        ensures
            forall|s: ShortcutView| #[trigger] self.indexed().contains_key(s)
                ==> self.view().contains_key(self.indexed()[s]) && self.view()[self.indexed()[s]] == Some(s),
            forall|k: Seq<char>| #[trigger] self.view().contains_key(k) && self.view()[k] is Some
                ==> self.indexed().contains_key(self.view()[k]->0),
    {
        assert forall|s: ShortcutView| #[trigger] self.indexed().contains_key(s)
            implies self.view().contains_key(self.indexed()[s]) && self.view()[self.indexed()[s]] == Some(s) by {
            let j = choose|j: int| 0 <= j < self.index@.len() && self.kview(j) == s;
            self.lemma_indexed_at(j);
            assert(self.slot_backed(j));
            let i = choose|i: int| 0 <= i < self.entries@.len() && #[trigger] self.eid(i) == self.kid(j)
                && self.eval(i) == Some(self.kview(j));
            self.lemma_view_at(i);
        }
        assert forall|k: Seq<char>| #[trigger] self.view().contains_key(k) && self.view()[k] is Some
            implies self.indexed().contains_key(self.view()[k]->0) by {
            let i = choose|i: int| 0 <= i < self.entries@.len() && self.eid(i) == k;
            self.lemma_view_at(i);
            assert(self.eval(i) is Some);
            let j = choose|j: int| 0 <= j < self.index@.len() && Some(#[trigger] self.kview(j)) == self.eval(i);
            self.lemma_indexed_at(j);
        }
    }

    /// Position of action `id` in the table.
    fn find_entry(&self, id: &str) -> (r: Option<usize>)
        ensures
            match r {
                Some(i) => i < self.entries@.len() && self.eid(i as int) == id@,
                None => forall|i: int| 0 <= i < self.entries@.len() ==> self.eid(i) != id@,
            },
    {
        let mut i: usize = 0;
        while i < self.entries.len()
            invariant
                i <= self.entries@.len(),
                forall|m: int| 0 <= m < i ==> self.eid(m) != id@,
            decreases self.entries.len() - i,
        {
            if str_eq(self.entries[i].0.as_str(), id) {
                return Some(i);
            }
            i = i + 1;
        }
        None
    }

    /// Position of shortcut `s` in the index.
    fn find_index(&self, s: &KeyboardShortcut) -> (r: Option<usize>)
        ensures
            match r {
                Some(j) => j < self.index@.len() && self.kview(j as int) == s@,
                None => forall|j: int| 0 <= j < self.index@.len() ==> self.kview(j) != s@,
            },
    {
        let mut j: usize = 0;
        while j < self.index.len()
            invariant
                j <= self.index@.len(),
                forall|m: int| 0 <= m < j ==> self.kview(m) != s@,
            decreases self.index.len() - j,
        {
            if self.index[j].0 == *s {
                return Some(j);
            }
            j = j + 1;
        }
        None
    }

    /// Rebuild the inverted index for fast lookups.
    fn rebuild_index(&mut self)
        requires
            old(self).ids_unique(),
        ensures
            final(self).wf(),
            final(self).entries@ == old(self).entries@,
    {
        self.index = Vec::new();
        assert forall|a: int, b: int|
            0 <= a < self.entries@.len() && 0 <= b < self.entries@.len() && a != b
                implies #[trigger] self.eid(a) != #[trigger] self.eid(b) by {
            assert(self.eid(a) == old(self).eid(a) && self.eid(b) == old(self).eid(b));
        }
        let mut i: usize = 0;
        while i < self.entries.len()
            invariant
                self.entries@ == old(self).entries@,
                self.ids_unique(),
                self.keys_unique(),
                self.index_sound(),
                self.index_complete_upto(i as int),
                i <= self.entries@.len(),
            decreases self.entries.len() - i,
        {
            let ghost start = *self;
            match &self.entries[i].1 {
                Some(sc) => {
                    let id = self.entries[i].0.clone();
                    let key = sc.copy();
                    let ghost before = *self;
                    match self.find_index(sc) {
                        Some(p) => {
                            self.index.set(p, (key, id));
                            assert forall|j: int| 0 <= j < self.index@.len()
                                implies #[trigger] self.slot_backed(j) by {
                                if j == p as int {
                                    assert(self.eid(i as int) == self.kid(j));
                                    assert(self.eval(i as int) == Some(self.kview(j)));
                                } else {
                                    assert(before.kid(j) == self.kid(j));
                                    assert(before.kview(j) == self.kview(j));
                                    assert(before.slot_backed(j));
                                    let m = choose|m: int| 0 <= m < before.entries@.len()
                                        && #[trigger] before.eid(m) == before.kid(j)
                                        && before.eval(m) == Some(before.kview(j));
                                    assert(self.eid(m) == before.eid(m) && self.eval(m) == before.eval(m));
                                }
                            }
                            assert(self.index_sound());
                            assert forall|m: int| 0 <= m < i + 1 && (#[trigger] self.eval(m)) is Some
                                implies exists|j: int| 0 <= j < self.index@.len()
                                    && Some(#[trigger] self.kview(j)) == self.eval(m) by {
                                if m == i as int {
                                    assert(Some(self.kview(p as int)) == self.eval(m));
                                } else {
                                    let j = choose|j: int| 0 <= j < before.index@.len()
                                        && Some(#[trigger] before.kview(j)) == before.eval(m);
                                    assert(Some(self.kview(j)) == self.eval(m));
                                }
                            }
                            assert forall|a: int, b: int| 0 <= a < self.index@.len() && 0 <= b < self.index@.len()
                                && a != b implies #[trigger] self.kview(a) != #[trigger] self.kview(b) by {
                                assert(self.kview(a) == before.kview(a));
                                assert(self.kview(b) == before.kview(b));
                            }
                        },
                        None => {
                            self.index.push((key, id));
                            let ghost n = before.index@.len() as int;
                            assert forall|j: int| 0 <= j < self.index@.len()
                                implies #[trigger] self.slot_backed(j) by {
                                if j == n {
                                    assert(self.eid(i as int) == self.kid(j));
                                    assert(self.eval(i as int) == Some(self.kview(j)));
                                } else {
                                    assert(before.kid(j) == self.kid(j));
                                    assert(before.kview(j) == self.kview(j));
                                    assert(before.slot_backed(j));
                                    let m = choose|m: int| 0 <= m < before.entries@.len()
                                        && #[trigger] before.eid(m) == before.kid(j)
                                        && before.eval(m) == Some(before.kview(j));
                                    assert(self.eid(m) == before.eid(m) && self.eval(m) == before.eval(m));
                                }
                            }
                            assert(self.index_sound());
                            assert forall|m: int| 0 <= m < i + 1 && (#[trigger] self.eval(m)) is Some
                                implies exists|j: int| 0 <= j < self.index@.len()
                                    && Some(#[trigger] self.kview(j)) == self.eval(m) by {
                                if m == i as int {
                                    assert(Some(self.kview(n)) == self.eval(m));
                                } else {
                                    let j = choose|j: int| 0 <= j < before.index@.len()
                                        && Some(#[trigger] before.kview(j)) == before.eval(m);
                                    assert(Some(self.kview(j)) == self.eval(m));
                                }
                            }
                            assert forall|a: int, b: int| 0 <= a < self.index@.len() && 0 <= b < self.index@.len()
                                && a != b implies #[trigger] self.kview(a) != #[trigger] self.kview(b) by {
                                if a < n {
                                    assert(self.kview(a) == before.kview(a));
                                }
                                if b < n {
                                    assert(self.kview(b) == before.kview(b));
                                }
                            }
                        },
                    }
                },
                None => {},
            }
            assert forall|a: int, b: int|
                0 <= a < self.entries@.len() && 0 <= b < self.entries@.len() && a != b
                    implies #[trigger] self.eid(a) != #[trigger] self.eid(b) by {
                assert(self.eid(a) == start.eid(a) && self.eid(b) == start.eid(b));
            }
            i = i + 1;
        }
    }
}

impl KeyboardShortcuts {
    /// An empty table.
    fn empty() -> (r: Self)
        ensures
            r.wf(),
            r.view() == Map::<Seq<char>, Option<ShortcutView>>::empty(),
    {
        let r = KeyboardShortcuts { entries: Vec::new(), index: Vec::new() };
        assert(r.view() =~= Map::<Seq<char>, Option<ShortcutView>>::empty());
        r
    }

    /// Bind `id` to `sc` in the table without touching the index.
    fn insert_raw(&mut self, id: &str, sc: Option<KeyboardShortcut>)
        requires
            old(self).ids_unique(),
        ensures
            final(self).ids_unique(),
            final(self).view() == old(self).view().insert(id@, opt_view(sc)),
    {
        let ghost before = *self;
        let ghost v = opt_view(sc);
        match self.find_entry(id) {
            Some(p) => {
                self.entries.set(p, (String::from_str(id), sc));
                assert forall|i: int| 0 <= i < self.entries@.len()
                    implies #[trigger] self.eid(i) == before.eid(i) by {}
                assert forall|a: int, b: int|
                    0 <= a < self.entries@.len() && 0 <= b < self.entries@.len() && a != b
                        implies #[trigger] self.eid(a) != #[trigger] self.eid(b) by {
                    assert(self.eid(a) == before.eid(a) && self.eid(b) == before.eid(b));
                }
                assert forall|k: Seq<char>| #[trigger] self.view().contains_key(k)
                    == before.view().insert(id@, v).contains_key(k) by {
                    if self.view().contains_key(k) {
                        let i = choose|i: int| 0 <= i < self.entries@.len() && self.eid(i) == k;
                        before.lemma_view_at(i);
                    }
                    if before.view().insert(id@, v).contains_key(k) {
                        if k == id@ {
                            self.lemma_view_at(p as int);
                        } else {
                            let i = choose|i: int| 0 <= i < before.entries@.len() && before.eid(i) == k;
                            self.lemma_view_at(i);
                        }
                    }
                }
                assert forall|k: Seq<char>| #[trigger] self.view().contains_key(k)
                    implies self.view()[k] == before.view().insert(id@, v)[k] by {
                    let i = choose|i: int| 0 <= i < self.entries@.len() && self.eid(i) == k;
                    self.lemma_view_at(i);
                    if k != id@ {
                        before.lemma_view_at(i);
                    }
                }
                assert(self.view() =~= before.view().insert(id@, v));
            },
            None => {
                self.entries.push((String::from_str(id), sc));
                let ghost n = before.entries@.len() as int;
                assert forall|i: int| 0 <= i < n
                    implies #[trigger] self.eid(i) == before.eid(i) by {}
                assert(self.eid(n) == id@);
                assert forall|a: int, b: int|
                    0 <= a < self.entries@.len() && 0 <= b < self.entries@.len() && a != b
                        implies #[trigger] self.eid(a) != #[trigger] self.eid(b) by {
                    if a < n && b < n {
                        assert(self.eid(a) == before.eid(a) && self.eid(b) == before.eid(b));
                    } else if a < n {
                        assert(self.eid(a) == before.eid(a));
                    } else if b < n {
                        assert(self.eid(b) == before.eid(b));
                    }
                }
                assert forall|k: Seq<char>| #[trigger] self.view().contains_key(k)
                    == before.view().insert(id@, v).contains_key(k) by {
                    if self.view().contains_key(k) {
                        let i = choose|i: int| 0 <= i < self.entries@.len() && self.eid(i) == k;
                        if i < n {
                            before.lemma_view_at(i);
                        }
                    }
                    if before.view().insert(id@, v).contains_key(k) {
                        if k == id@ {
                            self.lemma_view_at(n);
                        } else {
                            let i = choose|i: int| 0 <= i < before.entries@.len() && before.eid(i) == k;
                            self.lemma_view_at(i);
                        }
                    }
                }
                assert forall|k: Seq<char>| #[trigger] self.view().contains_key(k)
                    implies self.view()[k] == before.view().insert(id@, v)[k] by {
                    let i = choose|i: int| 0 <= i < self.entries@.len() && self.eid(i) == k;
                    self.lemma_view_at(i);
                    if k != id@ {
                        before.lemma_view_at(i);
                    }
                }
                assert(self.view() =~= before.view().insert(id@, v));
            },
        }
    }

    /// Get the default keyboard shortcuts.
    pub fn default_shortcuts(is_mac: bool) -> (r: Self)
        ensures
            r.wf(),
            r.view() == defaults_map(is_mac),
    {
        let defs = get_all_shortcut_definitions(is_mac);
        let ghost dv = defs@.map_values(|e: ShortcutEntry| e@);
        let mut r = Self::empty();
        let mut i: usize = 0;
        assert(dv.take(0) =~= Seq::<EntryView>::empty());
        while i < defs.len()
            invariant
                i <= defs@.len(),
                dv == defs@.map_values(|e: ShortcutEntry| e@),
                r.ids_unique(),
                r.view() == fold_definitions(dv.take(i as int)),
            decreases defs.len() - i,
        {
            let sc = defs[i].default_shortcut.copy();
            r.insert_raw(defs[i].id, Some(sc));
            assert(dv.take(i + 1).drop_last() =~= dv.take(i as int));
            i = i + 1;
        }
        assert(dv.take(i as int) =~= dv);
        let ghost mid = r;
        r.rebuild_index();
        proof { r.lemma_same_entries(&mid); }
        r
    }

    /// Get a shortcut by ID.
    pub fn get(&self, id: &str) -> (r: Option<&KeyboardShortcut>)
        requires
            self.wf(),
        ensures
            match r {
                Some(s) => self.view().contains_key(id@) && self.view()[id@] == Some(s@),
                None => !self.view().contains_key(id@) || self.view()[id@] is None,
            },
    {
        match self.find_entry(id) {
            Some(i) => {
                proof { self.lemma_view_at(i as int); }
                match &self.entries[i].1 {
                    Some(s) => Some(s),
                    None => None,
                }
            },
            None => None,
        }
    }

    /// Set a shortcut by ID and rebuild the index.
    pub fn set(&mut self, id: &str, shortcut: Option<KeyboardShortcut>)
        requires
            old(self).wf(),
        ensures
            final(self).wf(),
            final(self).view() == old(self).view().insert(id@, opt_view(shortcut)),
    {
        self.insert_raw(id, shortcut);
        let ghost mid = *self;
        self.rebuild_index();
        proof { self.lemma_same_entries(&mid); }
    }

    /// Find which action matches the given keyboard event.
    pub fn find_action(&self, code: &str, ctrl: bool, shift: bool, alt: bool, meta: bool) -> (r: Option<&str>)
        requires
            self.wf(),
        ensures
            match r {
                Some(id) => self.indexed().contains_key((code@, ctrl, shift, alt, meta))
                    && self.indexed()[(code@, ctrl, shift, alt, meta)] == id@,
                None => !self.indexed().contains_key((code@, ctrl, shift, alt, meta)),
            },
    {
        let shortcut = KeyboardShortcut::new(String::from_str(code), ctrl, shift, alt, meta);
        match self.find_index(&shortcut) {
            Some(j) => {
                proof { self.lemma_indexed_at(j as int); }
                Some(self.index[j].1.as_str())
            },
            None => None,
        }
    }

    /// Check if a shortcut would conflict with any existing shortcuts.
    pub fn check_conflicts(&self, new_shortcut: &KeyboardShortcut, exclude_id: Option<&str>) -> (r: Vec<String>)
        requires
            self.wf(),
        ensures
            r@.map_values(|s: String| s@) == conflicts_spec(
                self.indexed(),
                new_shortcut@,
                match exclude_id { Some(e) => Some(e@), None => None },
            ),
    {
        let ghost ex = match exclude_id { Some(e) => Some(e@), None => None };
        match self.find_index(new_shortcut) {
            Some(j) => {
                proof { self.lemma_indexed_at(j as int); }
                let conflicting = &self.index[j].1;
                match exclude_id {
                    Some(exclude) => {
                        if str_eq(conflicting.as_str(), exclude) {
                            let r: Vec<String> = Vec::new();
                            assert(r@.map_values(|s: String| s@) =~= conflicts_spec(self.indexed(), new_shortcut@, ex));
                            return r;
                        }
                    },
                    None => {},
                }
                let mut r: Vec<String> = Vec::new();
                r.push(conflicting.clone());
                assert(r@.map_values(|s: String| s@) =~= conflicts_spec(self.indexed(), new_shortcut@, ex));
                r
            },
            None => {
                let r: Vec<String> = Vec::new();
                assert(r@.map_values(|s: String| s@) =~= conflicts_spec(self.indexed(), new_shortcut@, ex));
                r
            },
        }
    }

    /// Merge in any new shortcuts from defaults that aren't in the current settings.
    /// This is used for migrating settings when new shortcuts are added to the codebase.
    pub fn merge_with_defaults(&mut self, is_mac: bool)
        requires
            old(self).wf(),
        ensures
            final(self).wf(),
            final(self).view() == defaults_map(is_mac).union_prefer_right(old(self).view()),
    {
        let defaults = Self::default_shortcuts(is_mac);
        let ghost dmap = defaults.view();
        let ghost before = *self;
        let mut needs_rebuild = false;
        let mut i: usize = 0;
        while i < defaults.entries.len()
            invariant
                i <= defaults.entries@.len(),
                defaults.wf(),
                dmap == defaults.view(),
                self.ids_unique(),
                !needs_rebuild ==> *self == before,
                before.wf(),
                forall|k: Seq<char>| #[trigger] self.view().contains_key(k) <==>
                    (before.view().contains_key(k) || exists|j: int| 0 <= j < i && defaults.eid(j) == k),
                forall|k: Seq<char>| #[trigger] before.view().contains_key(k)
                    ==> self.view()[k] == before.view()[k],
                forall|j: int| 0 <= j < i && !before.view().contains_key(#[trigger] defaults.eid(j))
                    ==> self.view()[defaults.eid(j)] == defaults.eval(j),
            decreases defaults.entries.len() - i,
        {
            let id = defaults.entries[i].0.as_str();
            let present = match self.find_entry(id) {
                Some(p) => {
                    proof { self.lemma_view_at(p as int); }
                    true
                },
                None => false,
            };
            let ghost prev = *self;
            if !present {
                proof {
                    assert forall|m: int| 0 <= m < self.entries@.len() implies self.eid(m) != id@ by {}
                    self.lemma_view_absent(id@);
                }
                let sc = match &defaults.entries[i].1 {
                    Some(s) => Some(s.copy()),
                    None => None,
                };
                self.insert_raw(id, sc);
                needs_rebuild = true;
                proof {
                    assert forall|j: int| 0 <= j < i + 1 && !before.view().contains_key(#[trigger] defaults.eid(j))
                        implies self.view()[defaults.eid(j)] == defaults.eval(j) by {
                        if j < i {
                            assert(defaults.eid(j) != defaults.eid(i as int));
                        }
                    }
                }
            }
            proof {
                assert forall|k: Seq<char>| #[trigger] self.view().contains_key(k) <==>
                    (before.view().contains_key(k) || exists|j: int| 0 <= j < i + 1 && defaults.eid(j) == k) by {
                    if k == defaults.eid(i as int) {
                    } else if exists|j: int| 0 <= j < i + 1 && defaults.eid(j) == k {
                        let j = choose|j: int| 0 <= j < i + 1 && defaults.eid(j) == k;
                        assert(j < i);
                    }
                }
            }
            i = i + 1;
        }
        proof {
            let target = dmap.union_prefer_right(before.view());
            assert forall|k: Seq<char>| #[trigger] self.view().contains_key(k) == target.contains_key(k) by {
                if dmap.contains_key(k) {
                    let j = choose|j: int| 0 <= j < defaults.entries@.len() && defaults.eid(j) == k;
                }
                if exists|j: int| 0 <= j < i && defaults.eid(j) == k {
                    let j = choose|j: int| 0 <= j < i && defaults.eid(j) == k;
                    defaults.lemma_view_at(j);
                }
            }
            assert forall|k: Seq<char>| #[trigger] self.view().contains_key(k)
                implies self.view()[k] == target[k] by {
                if !before.view().contains_key(k) {
                    let j = choose|j: int| 0 <= j < i && defaults.eid(j) == k;
                    defaults.lemma_view_at(j);
                }
            }
            assert(self.view() =~= target);
        }
        if needs_rebuild {
            let ghost mid = *self;
            self.rebuild_index();
            proof { self.lemma_same_entries(&mid); }
        }
    }
}

/// Abstract value of an (id, metadata) pair.
pub open spec fn meta_pair_view(p: (String, ShortcutMetadata)) -> (Seq<char>, Seq<char>, ShortcutCategory) {
    (p.0@, p.1.description@, p.1.category)
}

/// Abstract value of an (id, metadata) pair within a category group.
pub open spec fn grouped_pair_view(p: (String, ShortcutMetadata)) -> (Seq<char>, Seq<char>) {
    (p.0@, p.1.description@)
}

/// The (id, metadata) pairs of the definitions in category `c`, in definition order.
fn collect_category(defs: &Vec<ShortcutEntry>, c: ShortcutCategory) -> (r: Vec<(String, ShortcutMetadata)>)
    ensures
        r@.map_values(|p: (String, ShortcutMetadata)| grouped_pair_view(p)) == in_category(
            defs@.map_values(|e: ShortcutEntry| (e@.0, e@.1, e@.2)),
            c,
        ),
        forall|k: int| 0 <= k < r@.len() ==> (#[trigger] r@[k]).1.category == c,
{
    let ghost m = defs@.map_values(|e: ShortcutEntry| (e@.0, e@.1, e@.2));
    let mut r: Vec<(String, ShortcutMetadata)> = Vec::new();
    let mut i: usize = 0;
    while i < defs.len()
        invariant
            i <= defs@.len(),
            m == defs@.map_values(|e: ShortcutEntry| (e@.0, e@.1, e@.2)),
            r@.map_values(|p: (String, ShortcutMetadata)| grouped_pair_view(p)) == in_category(m.take(i as int), c),
            forall|k: int| 0 <= k < r@.len() ==> (#[trigger] r@[k]).1.category == c,
        decreases defs.len() - i,
    {
        assert(m.take(i + 1).drop_last() =~= m.take(i as int));
        if defs[i].category == c {
            r.push((String::from_str(defs[i].id), ShortcutMetadata {
                description: defs[i].description,
                category: defs[i].category,
            }));
            assert(r@.map_values(|p: (String, ShortcutMetadata)| grouped_pair_view(p)) =~= in_category(m.take(i + 1), c));
        }
        i = i + 1;
    }
    assert(m.take(i as int) =~= m);
    r
}

impl KeyboardShortcuts {
    /// Get metadata for all shortcuts, in definition order.
    pub fn get_all_metadata() -> (r: Vec<(String, ShortcutMetadata)>)
        ensures
            r@.map_values(|p: (String, ShortcutMetadata)| meta_pair_view(p)) == metadata_spec(),
    {
        let defs = get_all_shortcut_definitions(false);
        let ghost m = defs@.map_values(|e: ShortcutEntry| (e@.0, e@.1, e@.2));
        assert(m =~= metadata_spec());
        let mut r: Vec<(String, ShortcutMetadata)> = Vec::new();
        let mut i: usize = 0;
        while i < defs.len()
            invariant
                i <= defs@.len(),
                m == defs@.map_values(|e: ShortcutEntry| (e@.0, e@.1, e@.2)),
                r@.map_values(|p: (String, ShortcutMetadata)| meta_pair_view(p)) == m.take(i as int),
                r@.len() == i,
            decreases defs.len() - i,
        {
            let ghost before_r = r@;
            r.push((String::from_str(defs[i].id), ShortcutMetadata {
                description: defs[i].description,
                category: defs[i].category,
            }));
            assert(meta_pair_view(r@[i as int]) == m[i as int]);
            assert(r@.map_values(|p: (String, ShortcutMetadata)| meta_pair_view(p)) =~= m.take(i + 1)) by {
                assert forall|k: int| 0 <= k < i + 1 implies #[trigger] meta_pair_view(r@[k]) == m.take(i + 1)[k] by {
                    if k < i {
                        assert(r@[k] == before_r[k]);
                        assert(meta_pair_view(before_r[k]) == m.take(i as int)[k]);
                    }
                }
            }
            i = i + 1;
        }
        assert(m.take(i as int) =~= m);
        r
    }

    /// Get all shortcuts in the order they were defined, grouped by category.
    /// Each group lists its category's shortcuts in definition order; every
    /// category that has shortcuts has exactly one group.
    pub fn get_all_ordered() -> (r: Vec<(ShortcutCategory, Vec<(String, ShortcutMetadata)>)>)
        ensures
            forall|g: int| 0 <= g < r@.len() ==> (#[trigger] r@[g]).1@.map_values(
                |p: (String, ShortcutMetadata)| grouped_pair_view(p),
            ) == in_category(metadata_spec(), r@[g].0) && r@[g].1@.len() > 0,
            forall|g: int, h: int| 0 <= g < h < r@.len() ==> (#[trigger] r@[g]).0 != (#[trigger] r@[h]).0,
            forall|c: ShortcutCategory| #[trigger] in_category(metadata_spec(), c).len() > 0
                ==> exists|g: int| 0 <= g < r@.len() && r@[g].0 == c,
    {
        let defs = get_all_shortcut_definitions(false);
        proof {
            assert(defs@.map_values(|e: ShortcutEntry| (e@.0, e@.1, e@.2)) =~= metadata_spec());
        }
        let mut r: Vec<(ShortcutCategory, Vec<(String, ShortcutMetadata)>)> = Vec::new();
        let nav = collect_category(&defs, ShortcutCategory::Navigation);
        let infra = collect_category(&defs, ShortcutCategory::Infrastructure);
        let proj = collect_category(&defs, ShortcutCategory::Project);
        let ghost nav_v = nav@.map_values(|p: (String, ShortcutMetadata)| grouped_pair_view(p));
        let ghost infra_v = infra@.map_values(|p: (String, ShortcutMetadata)| grouped_pair_view(p));
        let ghost proj_v = proj@.map_values(|p: (String, ShortcutMetadata)| grouped_pair_view(p));
        let nav_nonempty = nav.len() > 0;
        let infra_nonempty = infra.len() > 0;
        let proj_nonempty = proj.len() > 0;
        if nav_nonempty {
            r.push((ShortcutCategory::Navigation, nav));
        }
        if infra_nonempty {
            r.push((ShortcutCategory::Infrastructure, infra));
        }
        if proj_nonempty {
            r.push((ShortcutCategory::Project, proj));
        }
        proof {
            assert forall|c: ShortcutCategory| #[trigger] in_category(metadata_spec(), c).len() > 0
                implies exists|g: int| 0 <= g < r@.len() && r@[g].0 == c by {
                match c {
                    ShortcutCategory::Navigation => {
                        assert(nav_v.len() > 0);
                        assert(r@[0].0 == c);
                    },
                    ShortcutCategory::Infrastructure => {
                        assert(infra_v.len() > 0);
                        let g: int = if nav_nonempty { 1 } else { 0 };
                        assert(r@[g].0 == c);
                    },
                    ShortcutCategory::Project => {
                        assert(proj_v.len() > 0);
                        let g: int = (if nav_nonempty { 1int } else { 0int }) + (if infra_nonempty { 1int } else { 0int });
                        assert(r@[g].0 == c);
                    },
                }
            }
        }
        r
    }
}

impl Default for KeyboardShortcuts {
    fn default() -> (r: Self)
        ensures
            r.wf(),
            r.view() == defaults_map(false),
    {
        Self::default_shortcuts(false)
    }
}

/// Setting an action's shortcut and reading it back gives the shortcut that
/// was set; every other action keeps what it had.
pub proof fn law_get_after_set(
    before: Map<Seq<char>, Option<ShortcutView>>,
    after: Map<Seq<char>, Option<ShortcutView>>,
    id: Seq<char>,
    s: Option<ShortcutView>,
)
    requires
        after == before.insert(id, s),
    ensures
        after.contains_key(id),
        after[id] == s,
        forall|other: Seq<char>| other != id ==> (#[trigger] after.contains_key(other) <==> before.contains_key(other)),
        forall|other: Seq<char>| other != id && before.contains_key(other) ==> #[trigger] after[other] == before[other],
{
}

/// Merging with the defaults keeps every action the user has configured (bound
/// or deliberately unbound), gives every other known action its default, adds
/// nothing else, and merging a second time changes nothing.
pub proof fn law_merge_with_defaults(user: Map<Seq<char>, Option<ShortcutView>>, is_mac: bool)
    ensures
        ({
            let d = defaults_map(is_mac);
            let merged = d.union_prefer_right(user);
            &&& forall|k: Seq<char>| #[trigger] user.contains_key(k) ==> merged.contains_key(k) && merged[k] == user[k]
            &&& forall|k: Seq<char>| !user.contains_key(k) && #[trigger] d.contains_key(k) ==> merged.contains_key(k)
                && merged[k] == d[k]
            &&& forall|k: Seq<char>| #[trigger] merged.contains_key(k) <==> user.contains_key(k) || d.contains_key(k)
            &&& d.union_prefer_right(merged) == merged
        }),
{
    let d = defaults_map(is_mac);
    let merged = d.union_prefer_right(user);
    assert(d.union_prefer_right(merged) =~= merged);
}

/// Two shortcuts conflict with each other exactly when they are the same
/// key combination, so conflict is symmetric.
pub proof fn law_conflict_symmetric(a: ShortcutView, b: ShortcutView)
    ensures
        (a == b) <==> (b == a),
{
}

/// The action ids of the definitions are all different, and so are the key
/// codes they use.
proof fn lemma_definition_literals_distinct()
    ensures
        "pan_up"@ != "pan_left"@,
        "pan_up"@ != "pan_down"@,
        "pan_up"@ != "pan_right"@,
        "pan_up"@ != "pan_toggle"@,
        "pan_up"@ != "zoom_in"@,
        "pan_up"@ != "zoom_out"@,
        "pan_up"@ != "horizontal_scale_increase"@,
        "pan_up"@ != "horizontal_scale_decrease"@,
        "pan_up"@ != "reset_view"@,
        "pan_up"@ != "add_station"@,
        "pan_up"@ != "add_track"@,
        "pan_up"@ != "add_junction"@,
        "pan_up"@ != "create_view"@,
        "pan_up"@ != "manage_projects"@,
        "pan_up"@ != "create_line"@,
        "pan_up"@ != "import_data"@,
        "pan_up"@ != "open_settings"@,
        "pan_up"@ != "undo"@,
        "pan_up"@ != "redo"@,
        "pan_left"@ != "pan_down"@,
        "pan_left"@ != "pan_right"@,
        "pan_left"@ != "pan_toggle"@,
        "pan_left"@ != "zoom_in"@,
        "pan_left"@ != "zoom_out"@,
        "pan_left"@ != "horizontal_scale_increase"@,
        "pan_left"@ != "horizontal_scale_decrease"@,
        "pan_left"@ != "reset_view"@,
        "pan_left"@ != "add_station"@,
        "pan_left"@ != "add_track"@,
        "pan_left"@ != "add_junction"@,
        "pan_left"@ != "create_view"@,
        "pan_left"@ != "manage_projects"@,
        "pan_left"@ != "create_line"@,
        "pan_left"@ != "import_data"@,
        "pan_left"@ != "open_settings"@,
        "pan_left"@ != "undo"@,
        "pan_left"@ != "redo"@,
        "pan_down"@ != "pan_right"@,
        "pan_down"@ != "pan_toggle"@,
        "pan_down"@ != "zoom_in"@,
        "pan_down"@ != "zoom_out"@,
        "pan_down"@ != "horizontal_scale_increase"@,
        "pan_down"@ != "horizontal_scale_decrease"@,
        "pan_down"@ != "reset_view"@,
        "pan_down"@ != "add_station"@,
        "pan_down"@ != "add_track"@,
        "pan_down"@ != "add_junction"@,
        "pan_down"@ != "create_view"@,
        "pan_down"@ != "manage_projects"@,
        "pan_down"@ != "create_line"@,
        "pan_down"@ != "import_data"@,
        "pan_down"@ != "open_settings"@,
        "pan_down"@ != "undo"@,
        "pan_down"@ != "redo"@,
        "pan_right"@ != "pan_toggle"@,
        "pan_right"@ != "zoom_in"@,
        "pan_right"@ != "zoom_out"@,
        "pan_right"@ != "horizontal_scale_increase"@,
        "pan_right"@ != "horizontal_scale_decrease"@,
        "pan_right"@ != "reset_view"@,
        "pan_right"@ != "add_station"@,
        "pan_right"@ != "add_track"@,
        "pan_right"@ != "add_junction"@,
        "pan_right"@ != "create_view"@,
        "pan_right"@ != "manage_projects"@,
        "pan_right"@ != "create_line"@,
        "pan_right"@ != "import_data"@,
        "pan_right"@ != "open_settings"@,
        "pan_right"@ != "undo"@,
        "pan_right"@ != "redo"@,
        "pan_toggle"@ != "zoom_in"@,
        "pan_toggle"@ != "zoom_out"@,
        "pan_toggle"@ != "horizontal_scale_increase"@,
        "pan_toggle"@ != "horizontal_scale_decrease"@,
        "pan_toggle"@ != "reset_view"@,
        "pan_toggle"@ != "add_station"@,
        "pan_toggle"@ != "add_track"@,
        "pan_toggle"@ != "add_junction"@,
        "pan_toggle"@ != "create_view"@,
        "pan_toggle"@ != "manage_projects"@,
        "pan_toggle"@ != "create_line"@,
        "pan_toggle"@ != "import_data"@,
        "pan_toggle"@ != "open_settings"@,
        "pan_toggle"@ != "undo"@,
        "pan_toggle"@ != "redo"@,
        "zoom_in"@ != "zoom_out"@,
        "zoom_in"@ != "horizontal_scale_increase"@,
        "zoom_in"@ != "horizontal_scale_decrease"@,
        "zoom_in"@ != "reset_view"@,
        "zoom_in"@ != "add_station"@,
        "zoom_in"@ != "add_track"@,
        "zoom_in"@ != "add_junction"@,
        "zoom_in"@ != "create_view"@,
        "zoom_in"@ != "manage_projects"@,
        "zoom_in"@ != "create_line"@,
        "zoom_in"@ != "import_data"@,
        "zoom_in"@ != "open_settings"@,
        "zoom_in"@ != "undo"@,
        "zoom_in"@ != "redo"@,
        "zoom_out"@ != "horizontal_scale_increase"@,
        "zoom_out"@ != "horizontal_scale_decrease"@,
        "zoom_out"@ != "reset_view"@,
        "zoom_out"@ != "add_station"@,
        "zoom_out"@ != "add_track"@,
        "zoom_out"@ != "add_junction"@,
        "zoom_out"@ != "create_view"@,
        "zoom_out"@ != "manage_projects"@,
        "zoom_out"@ != "create_line"@,
        "zoom_out"@ != "import_data"@,
        "zoom_out"@ != "open_settings"@,
        "zoom_out"@ != "undo"@,
        "zoom_out"@ != "redo"@,
        "horizontal_scale_increase"@ != "horizontal_scale_decrease"@,
        "horizontal_scale_increase"@ != "reset_view"@,
        "horizontal_scale_increase"@ != "add_station"@,
        "horizontal_scale_increase"@ != "add_track"@,
        "horizontal_scale_increase"@ != "add_junction"@,
        "horizontal_scale_increase"@ != "create_view"@,
        "horizontal_scale_increase"@ != "manage_projects"@,
        "horizontal_scale_increase"@ != "create_line"@,
        "horizontal_scale_increase"@ != "import_data"@,
        "horizontal_scale_increase"@ != "open_settings"@,
        "horizontal_scale_increase"@ != "undo"@,
        "horizontal_scale_increase"@ != "redo"@,
        "horizontal_scale_decrease"@ != "reset_view"@,
        "horizontal_scale_decrease"@ != "add_station"@,
        "horizontal_scale_decrease"@ != "add_track"@,
        "horizontal_scale_decrease"@ != "add_junction"@,
        "horizontal_scale_decrease"@ != "create_view"@,
        "horizontal_scale_decrease"@ != "manage_projects"@,
        "horizontal_scale_decrease"@ != "create_line"@,
        "horizontal_scale_decrease"@ != "import_data"@,
        "horizontal_scale_decrease"@ != "open_settings"@,
        "horizontal_scale_decrease"@ != "undo"@,
        "horizontal_scale_decrease"@ != "redo"@,
        "reset_view"@ != "add_station"@,
        "reset_view"@ != "add_track"@,
        "reset_view"@ != "add_junction"@,
        "reset_view"@ != "create_view"@,
        "reset_view"@ != "manage_projects"@,
        "reset_view"@ != "create_line"@,
        "reset_view"@ != "import_data"@,
        "reset_view"@ != "open_settings"@,
        "reset_view"@ != "undo"@,
        "reset_view"@ != "redo"@,
        "add_station"@ != "add_track"@,
        "add_station"@ != "add_junction"@,
        "add_station"@ != "create_view"@,
        "add_station"@ != "manage_projects"@,
        "add_station"@ != "create_line"@,
        "add_station"@ != "import_data"@,
        "add_station"@ != "open_settings"@,
        "add_station"@ != "undo"@,
        "add_station"@ != "redo"@,
        "add_track"@ != "add_junction"@,
        "add_track"@ != "create_view"@,
        "add_track"@ != "manage_projects"@,
        "add_track"@ != "create_line"@,
        "add_track"@ != "import_data"@,
        "add_track"@ != "open_settings"@,
        "add_track"@ != "undo"@,
        "add_track"@ != "redo"@,
        "add_junction"@ != "create_view"@,
        "add_junction"@ != "manage_projects"@,
        "add_junction"@ != "create_line"@,
        "add_junction"@ != "import_data"@,
        "add_junction"@ != "open_settings"@,
        "add_junction"@ != "undo"@,
        "add_junction"@ != "redo"@,
        "create_view"@ != "manage_projects"@,
        "create_view"@ != "create_line"@,
        "create_view"@ != "import_data"@,
        "create_view"@ != "open_settings"@,
        "create_view"@ != "undo"@,
        "create_view"@ != "redo"@,
        "manage_projects"@ != "create_line"@,
        "manage_projects"@ != "import_data"@,
        "manage_projects"@ != "open_settings"@,
        "manage_projects"@ != "undo"@,
        "manage_projects"@ != "redo"@,
        "create_line"@ != "import_data"@,
        "create_line"@ != "open_settings"@,
        "create_line"@ != "undo"@,
        "create_line"@ != "redo"@,
        "import_data"@ != "open_settings"@,
        "import_data"@ != "undo"@,
        "import_data"@ != "redo"@,
        "open_settings"@ != "undo"@,
        "open_settings"@ != "redo"@,
        "undo"@ != "redo"@,
        "BracketLeft"@ != "BracketRight"@,
        "BracketLeft"@ != "Comma"@,
        "BracketLeft"@ != "Equal"@,
        "BracketLeft"@ != "KeyA"@,
        "BracketLeft"@ != "KeyD"@,
        "BracketLeft"@ != "KeyJ"@,
        "BracketLeft"@ != "KeyL"@,
        "BracketLeft"@ != "KeyM"@,
        "BracketLeft"@ != "KeyN"@,
        "BracketLeft"@ != "KeyO"@,
        "BracketLeft"@ != "KeyR"@,
        "BracketLeft"@ != "KeyS"@,
        "BracketLeft"@ != "KeyT"@,
        "BracketLeft"@ != "KeyW"@,
        "BracketLeft"@ != "KeyY"@,
        "BracketLeft"@ != "KeyZ"@,
        "BracketLeft"@ != "Minus"@,
        "BracketLeft"@ != "Space"@,
        "BracketRight"@ != "Comma"@,
        "BracketRight"@ != "Equal"@,
        "BracketRight"@ != "KeyA"@,
        "BracketRight"@ != "KeyD"@,
        "BracketRight"@ != "KeyJ"@,
        "BracketRight"@ != "KeyL"@,
        "BracketRight"@ != "KeyM"@,
        "BracketRight"@ != "KeyN"@,
        "BracketRight"@ != "KeyO"@,
        "BracketRight"@ != "KeyR"@,
        "BracketRight"@ != "KeyS"@,
        "BracketRight"@ != "KeyT"@,
        "BracketRight"@ != "KeyW"@,
        "BracketRight"@ != "KeyY"@,
        "BracketRight"@ != "KeyZ"@,
        "BracketRight"@ != "Minus"@,
        "BracketRight"@ != "Space"@,
        "Comma"@ != "Equal"@,
        "Comma"@ != "KeyA"@,
        "Comma"@ != "KeyD"@,
        "Comma"@ != "KeyJ"@,
        "Comma"@ != "KeyL"@,
        "Comma"@ != "KeyM"@,
        "Comma"@ != "KeyN"@,
        "Comma"@ != "KeyO"@,
        "Comma"@ != "KeyR"@,
        "Comma"@ != "KeyS"@,
        "Comma"@ != "KeyT"@,
        "Comma"@ != "KeyW"@,
        "Comma"@ != "KeyY"@,
        "Comma"@ != "KeyZ"@,
        "Comma"@ != "Minus"@,
        "Comma"@ != "Space"@,
        "Equal"@ != "KeyA"@,
        "Equal"@ != "KeyD"@,
        "Equal"@ != "KeyJ"@,
        "Equal"@ != "KeyL"@,
        "Equal"@ != "KeyM"@,
        "Equal"@ != "KeyN"@,
        "Equal"@ != "KeyO"@,
        "Equal"@ != "KeyR"@,
        "Equal"@ != "KeyS"@,
        "Equal"@ != "KeyT"@,
        "Equal"@ != "KeyW"@,
        "Equal"@ != "KeyY"@,
        "Equal"@ != "KeyZ"@,
        "Equal"@ != "Minus"@,
        "Equal"@ != "Space"@,
        "KeyA"@ != "KeyD"@,
        "KeyA"@ != "KeyJ"@,
        "KeyA"@ != "KeyL"@,
        "KeyA"@ != "KeyM"@,
        "KeyA"@ != "KeyN"@,
        "KeyA"@ != "KeyO"@,
        "KeyA"@ != "KeyR"@,
        "KeyA"@ != "KeyS"@,
        "KeyA"@ != "KeyT"@,
        "KeyA"@ != "KeyW"@,
        "KeyA"@ != "KeyY"@,
        "KeyA"@ != "KeyZ"@,
        "KeyA"@ != "Minus"@,
        "KeyA"@ != "Space"@,
        "KeyD"@ != "KeyJ"@,
        "KeyD"@ != "KeyL"@,
        "KeyD"@ != "KeyM"@,
        "KeyD"@ != "KeyN"@,
        "KeyD"@ != "KeyO"@,
        "KeyD"@ != "KeyR"@,
        "KeyD"@ != "KeyS"@,
        "KeyD"@ != "KeyT"@,
        "KeyD"@ != "KeyW"@,
        "KeyD"@ != "KeyY"@,
        "KeyD"@ != "KeyZ"@,
        "KeyD"@ != "Minus"@,
        "KeyD"@ != "Space"@,
        "KeyJ"@ != "KeyL"@,
        "KeyJ"@ != "KeyM"@,
        "KeyJ"@ != "KeyN"@,
        "KeyJ"@ != "KeyO"@,
        "KeyJ"@ != "KeyR"@,
        "KeyJ"@ != "KeyS"@,
        "KeyJ"@ != "KeyT"@,
        "KeyJ"@ != "KeyW"@,
        "KeyJ"@ != "KeyY"@,
        "KeyJ"@ != "KeyZ"@,
        "KeyJ"@ != "Minus"@,
        "KeyJ"@ != "Space"@,
        "KeyL"@ != "KeyM"@,
        "KeyL"@ != "KeyN"@,
        "KeyL"@ != "KeyO"@,
        "KeyL"@ != "KeyR"@,
        "KeyL"@ != "KeyS"@,
        "KeyL"@ != "KeyT"@,
        "KeyL"@ != "KeyW"@,
        "KeyL"@ != "KeyY"@,
        "KeyL"@ != "KeyZ"@,
        "KeyL"@ != "Minus"@,
        "KeyL"@ != "Space"@,
        "KeyM"@ != "KeyN"@,
        "KeyM"@ != "KeyO"@,
        "KeyM"@ != "KeyR"@,
        "KeyM"@ != "KeyS"@,
        "KeyM"@ != "KeyT"@,
        "KeyM"@ != "KeyW"@,
        "KeyM"@ != "KeyY"@,
        "KeyM"@ != "KeyZ"@,
        "KeyM"@ != "Minus"@,
        "KeyM"@ != "Space"@,
        "KeyN"@ != "KeyO"@,
        "KeyN"@ != "KeyR"@,
        "KeyN"@ != "KeyS"@,
        "KeyN"@ != "KeyT"@,
        "KeyN"@ != "KeyW"@,
        "KeyN"@ != "KeyY"@,
        "KeyN"@ != "KeyZ"@,
        "KeyN"@ != "Minus"@,
        "KeyN"@ != "Space"@,
        "KeyO"@ != "KeyR"@,
        "KeyO"@ != "KeyS"@,
        "KeyO"@ != "KeyT"@,
        "KeyO"@ != "KeyW"@,
        "KeyO"@ != "KeyY"@,
        "KeyO"@ != "KeyZ"@,
        "KeyO"@ != "Minus"@,
        "KeyO"@ != "Space"@,
        "KeyR"@ != "KeyS"@,
        "KeyR"@ != "KeyT"@,
        "KeyR"@ != "KeyW"@,
        "KeyR"@ != "KeyY"@,
        "KeyR"@ != "KeyZ"@,
        "KeyR"@ != "Minus"@,
        "KeyR"@ != "Space"@,
        "KeyS"@ != "KeyT"@,
        "KeyS"@ != "KeyW"@,
        "KeyS"@ != "KeyY"@,
        "KeyS"@ != "KeyZ"@,
        "KeyS"@ != "Minus"@,
        "KeyS"@ != "Space"@,
        "KeyT"@ != "KeyW"@,
        "KeyT"@ != "KeyY"@,
        "KeyT"@ != "KeyZ"@,
        "KeyT"@ != "Minus"@,
        "KeyT"@ != "Space"@,
        "KeyW"@ != "KeyY"@,
        "KeyW"@ != "KeyZ"@,
        "KeyW"@ != "Minus"@,
        "KeyW"@ != "Space"@,
        "KeyY"@ != "KeyZ"@,
        "KeyY"@ != "Minus"@,
        "KeyY"@ != "Space"@,
        "KeyZ"@ != "Minus"@,
        "KeyZ"@ != "Space"@,
        "Minus"@ != "Space"@,
{
    reveal_strlit("pan_up");
    reveal_strlit("pan_left");
    reveal_strlit("pan_down");
    reveal_strlit("pan_right");
    reveal_strlit("pan_toggle");
    reveal_strlit("zoom_in");
    reveal_strlit("zoom_out");
    reveal_strlit("horizontal_scale_increase");
    reveal_strlit("horizontal_scale_decrease");
    reveal_strlit("reset_view");
    reveal_strlit("add_station");
    reveal_strlit("add_track");
    reveal_strlit("add_junction");
    reveal_strlit("create_view");
    reveal_strlit("manage_projects");
    reveal_strlit("create_line");
    reveal_strlit("import_data");
    reveal_strlit("open_settings");
    reveal_strlit("undo");
    reveal_strlit("redo");
    reveal_strlit("BracketLeft");
    reveal_strlit("BracketRight");
    reveal_strlit("Comma");
    reveal_strlit("Equal");
    reveal_strlit("KeyA");
    reveal_strlit("KeyD");
    reveal_strlit("KeyJ");
    reveal_strlit("KeyL");
    reveal_strlit("KeyM");
    reveal_strlit("KeyN");
    reveal_strlit("KeyO");
    reveal_strlit("KeyR");
    reveal_strlit("KeyS");
    reveal_strlit("KeyT");
    reveal_strlit("KeyW");
    reveal_strlit("KeyY");
    reveal_strlit("KeyZ");
    reveal_strlit("Minus");
    reveal_strlit("Space");
    assert("pan_up"@.len() != "pan_left"@.len());
    assert("pan_up"@.len() != "pan_down"@.len());
    assert("pan_up"@.len() != "pan_right"@.len());
    assert("pan_up"@.len() != "pan_toggle"@.len());
    assert("pan_up"@.len() != "zoom_in"@.len());
    assert("pan_up"@.len() != "zoom_out"@.len());
    assert("pan_up"@.len() != "horizontal_scale_increase"@.len());
    assert("pan_up"@.len() != "horizontal_scale_decrease"@.len());
    assert("pan_up"@.len() != "reset_view"@.len());
    assert("pan_up"@.len() != "add_station"@.len());
    assert("pan_up"@.len() != "add_track"@.len());
    assert("pan_up"@.len() != "add_junction"@.len());
    assert("pan_up"@.len() != "create_view"@.len());
    assert("pan_up"@.len() != "manage_projects"@.len());
    assert("pan_up"@.len() != "create_line"@.len());
    assert("pan_up"@.len() != "import_data"@.len());
    assert("pan_up"@.len() != "open_settings"@.len());
    assert("pan_up"@.len() != "undo"@.len());
    assert("pan_up"@.len() != "redo"@.len());
    assert("pan_left"@[4] != "pan_down"@[4]);
    assert("pan_left"@.len() != "pan_right"@.len());
    assert("pan_left"@.len() != "pan_toggle"@.len());
    assert("pan_left"@.len() != "zoom_in"@.len());
    assert("pan_left"@[0] != "zoom_out"@[0]);
    assert("pan_left"@.len() != "horizontal_scale_increase"@.len());
    assert("pan_left"@.len() != "horizontal_scale_decrease"@.len());
    assert("pan_left"@.len() != "reset_view"@.len());
    assert("pan_left"@.len() != "add_station"@.len());
    assert("pan_left"@.len() != "add_track"@.len());
    assert("pan_left"@.len() != "add_junction"@.len());
    assert("pan_left"@.len() != "create_view"@.len());
    assert("pan_left"@.len() != "manage_projects"@.len());
    assert("pan_left"@.len() != "create_line"@.len());
    assert("pan_left"@.len() != "import_data"@.len());
    assert("pan_left"@.len() != "open_settings"@.len());
    assert("pan_left"@.len() != "undo"@.len());
    assert("pan_left"@.len() != "redo"@.len());
    assert("pan_down"@.len() != "pan_right"@.len());
    assert("pan_down"@.len() != "pan_toggle"@.len());
    assert("pan_down"@.len() != "zoom_in"@.len());
    assert("pan_down"@[0] != "zoom_out"@[0]);
    assert("pan_down"@.len() != "horizontal_scale_increase"@.len());
    assert("pan_down"@.len() != "horizontal_scale_decrease"@.len());
    assert("pan_down"@.len() != "reset_view"@.len());
    assert("pan_down"@.len() != "add_station"@.len());
    assert("pan_down"@.len() != "add_track"@.len());
    assert("pan_down"@.len() != "add_junction"@.len());
    assert("pan_down"@.len() != "create_view"@.len());
    assert("pan_down"@.len() != "manage_projects"@.len());
    assert("pan_down"@.len() != "create_line"@.len());
    assert("pan_down"@.len() != "import_data"@.len());
    assert("pan_down"@.len() != "open_settings"@.len());
    assert("pan_down"@.len() != "undo"@.len());
    assert("pan_down"@.len() != "redo"@.len());
    assert("pan_right"@.len() != "pan_toggle"@.len());
    assert("pan_right"@.len() != "zoom_in"@.len());
    assert("pan_right"@.len() != "zoom_out"@.len());
    assert("pan_right"@.len() != "horizontal_scale_increase"@.len());
    assert("pan_right"@.len() != "horizontal_scale_decrease"@.len());
    assert("pan_right"@.len() != "reset_view"@.len());
    assert("pan_right"@.len() != "add_station"@.len());
    assert("pan_right"@[0] != "add_track"@[0]);
    assert("pan_right"@.len() != "add_junction"@.len());
    assert("pan_right"@.len() != "create_view"@.len());
    assert("pan_right"@.len() != "manage_projects"@.len());
    assert("pan_right"@.len() != "create_line"@.len());
    assert("pan_right"@.len() != "import_data"@.len());
    assert("pan_right"@.len() != "open_settings"@.len());
    assert("pan_right"@.len() != "undo"@.len());
    assert("pan_right"@.len() != "redo"@.len());
    assert("pan_toggle"@.len() != "zoom_in"@.len());
    assert("pan_toggle"@.len() != "zoom_out"@.len());
    assert("pan_toggle"@.len() != "horizontal_scale_increase"@.len());
    assert("pan_toggle"@.len() != "horizontal_scale_decrease"@.len());
    assert("pan_toggle"@[0] != "reset_view"@[0]);
    assert("pan_toggle"@.len() != "add_station"@.len());
    assert("pan_toggle"@.len() != "add_track"@.len());
    assert("pan_toggle"@.len() != "add_junction"@.len());
    assert("pan_toggle"@.len() != "create_view"@.len());
    assert("pan_toggle"@.len() != "manage_projects"@.len());
    assert("pan_toggle"@.len() != "create_line"@.len());
    assert("pan_toggle"@.len() != "import_data"@.len());
    assert("pan_toggle"@.len() != "open_settings"@.len());
    assert("pan_toggle"@.len() != "undo"@.len());
    assert("pan_toggle"@.len() != "redo"@.len());
    assert("zoom_in"@.len() != "zoom_out"@.len());
    assert("zoom_in"@.len() != "horizontal_scale_increase"@.len());
    assert("zoom_in"@.len() != "horizontal_scale_decrease"@.len());
    assert("zoom_in"@.len() != "reset_view"@.len());
    assert("zoom_in"@.len() != "add_station"@.len());
    assert("zoom_in"@.len() != "add_track"@.len());
    assert("zoom_in"@.len() != "add_junction"@.len());
    assert("zoom_in"@.len() != "create_view"@.len());
    assert("zoom_in"@.len() != "manage_projects"@.len());
    assert("zoom_in"@.len() != "create_line"@.len());
    assert("zoom_in"@.len() != "import_data"@.len());
    assert("zoom_in"@.len() != "open_settings"@.len());
    assert("zoom_in"@.len() != "undo"@.len());
    assert("zoom_in"@.len() != "redo"@.len());
    assert("zoom_out"@.len() != "horizontal_scale_increase"@.len());
    assert("zoom_out"@.len() != "horizontal_scale_decrease"@.len());
    assert("zoom_out"@.len() != "reset_view"@.len());
    assert("zoom_out"@.len() != "add_station"@.len());
    assert("zoom_out"@.len() != "add_track"@.len());
    assert("zoom_out"@.len() != "add_junction"@.len());
    assert("zoom_out"@.len() != "create_view"@.len());
    assert("zoom_out"@.len() != "manage_projects"@.len());
    assert("zoom_out"@.len() != "create_line"@.len());
    assert("zoom_out"@.len() != "import_data"@.len());
    assert("zoom_out"@.len() != "open_settings"@.len());
    assert("zoom_out"@.len() != "undo"@.len());
    assert("zoom_out"@.len() != "redo"@.len());
    assert("horizontal_scale_increase"@[17] != "horizontal_scale_decrease"@[17]);
    assert("horizontal_scale_increase"@.len() != "reset_view"@.len());
    assert("horizontal_scale_increase"@.len() != "add_station"@.len());
    assert("horizontal_scale_increase"@.len() != "add_track"@.len());
    assert("horizontal_scale_increase"@.len() != "add_junction"@.len());
    assert("horizontal_scale_increase"@.len() != "create_view"@.len());
    assert("horizontal_scale_increase"@.len() != "manage_projects"@.len());
    assert("horizontal_scale_increase"@.len() != "create_line"@.len());
    assert("horizontal_scale_increase"@.len() != "import_data"@.len());
    assert("horizontal_scale_increase"@.len() != "open_settings"@.len());
    assert("horizontal_scale_increase"@.len() != "undo"@.len());
    assert("horizontal_scale_increase"@.len() != "redo"@.len());
    assert("horizontal_scale_decrease"@.len() != "reset_view"@.len());
    assert("horizontal_scale_decrease"@.len() != "add_station"@.len());
    assert("horizontal_scale_decrease"@.len() != "add_track"@.len());
    assert("horizontal_scale_decrease"@.len() != "add_junction"@.len());
    assert("horizontal_scale_decrease"@.len() != "create_view"@.len());
    assert("horizontal_scale_decrease"@.len() != "manage_projects"@.len());
    assert("horizontal_scale_decrease"@.len() != "create_line"@.len());
    assert("horizontal_scale_decrease"@.len() != "import_data"@.len());
    assert("horizontal_scale_decrease"@.len() != "open_settings"@.len());
    assert("horizontal_scale_decrease"@.len() != "undo"@.len());
    assert("horizontal_scale_decrease"@.len() != "redo"@.len());
    assert("reset_view"@.len() != "add_station"@.len());
    assert("reset_view"@.len() != "add_track"@.len());
    assert("reset_view"@.len() != "add_junction"@.len());
    assert("reset_view"@.len() != "create_view"@.len());
    assert("reset_view"@.len() != "manage_projects"@.len());
    assert("reset_view"@.len() != "create_line"@.len());
    assert("reset_view"@.len() != "import_data"@.len());
    assert("reset_view"@.len() != "open_settings"@.len());
    assert("reset_view"@.len() != "undo"@.len());
    assert("reset_view"@.len() != "redo"@.len());
    assert("add_station"@.len() != "add_track"@.len());
    assert("add_station"@.len() != "add_junction"@.len());
    assert("add_station"@[0] != "create_view"@[0]);
    assert("add_station"@.len() != "manage_projects"@.len());
    assert("add_station"@[0] != "create_line"@[0]);
    assert("add_station"@[0] != "import_data"@[0]);
    assert("add_station"@.len() != "open_settings"@.len());
    assert("add_station"@.len() != "undo"@.len());
    assert("add_station"@.len() != "redo"@.len());
    assert("add_track"@.len() != "add_junction"@.len());
    assert("add_track"@.len() != "create_view"@.len());
    assert("add_track"@.len() != "manage_projects"@.len());
    assert("add_track"@.len() != "create_line"@.len());
    assert("add_track"@.len() != "import_data"@.len());
    assert("add_track"@.len() != "open_settings"@.len());
    assert("add_track"@.len() != "undo"@.len());
    assert("add_track"@.len() != "redo"@.len());
    assert("add_junction"@.len() != "create_view"@.len());
    assert("add_junction"@.len() != "manage_projects"@.len());
    assert("add_junction"@.len() != "create_line"@.len());
    assert("add_junction"@.len() != "import_data"@.len());
    assert("add_junction"@.len() != "open_settings"@.len());
    assert("add_junction"@.len() != "undo"@.len());
    assert("add_junction"@.len() != "redo"@.len());
    assert("create_view"@.len() != "manage_projects"@.len());
    assert("create_view"@[7] != "create_line"@[7]);
    assert("create_view"@[0] != "import_data"@[0]);
    assert("create_view"@.len() != "open_settings"@.len());
    assert("create_view"@.len() != "undo"@.len());
    assert("create_view"@.len() != "redo"@.len());
    assert("manage_projects"@.len() != "create_line"@.len());
    assert("manage_projects"@.len() != "import_data"@.len());
    assert("manage_projects"@.len() != "open_settings"@.len());
    assert("manage_projects"@.len() != "undo"@.len());
    assert("manage_projects"@.len() != "redo"@.len());
    assert("create_line"@[0] != "import_data"@[0]);
    assert("create_line"@.len() != "open_settings"@.len());
    assert("create_line"@.len() != "undo"@.len());
    assert("create_line"@.len() != "redo"@.len());
    assert("import_data"@.len() != "open_settings"@.len());
    assert("import_data"@.len() != "undo"@.len());
    assert("import_data"@.len() != "redo"@.len());
    assert("open_settings"@.len() != "undo"@.len());
    assert("open_settings"@.len() != "redo"@.len());
    assert("undo"@[0] != "redo"@[0]);
    assert("BracketLeft"@.len() != "BracketRight"@.len());
    assert("BracketLeft"@.len() != "Comma"@.len());
    assert("BracketLeft"@.len() != "Equal"@.len());
    assert("BracketLeft"@.len() != "KeyA"@.len());
    assert("BracketLeft"@.len() != "KeyD"@.len());
    assert("BracketLeft"@.len() != "KeyJ"@.len());
    assert("BracketLeft"@.len() != "KeyL"@.len());
    assert("BracketLeft"@.len() != "KeyM"@.len());
    assert("BracketLeft"@.len() != "KeyN"@.len());
    assert("BracketLeft"@.len() != "KeyO"@.len());
    assert("BracketLeft"@.len() != "KeyR"@.len());
    assert("BracketLeft"@.len() != "KeyS"@.len());
    assert("BracketLeft"@.len() != "KeyT"@.len());
    assert("BracketLeft"@.len() != "KeyW"@.len());
    assert("BracketLeft"@.len() != "KeyY"@.len());
    assert("BracketLeft"@.len() != "KeyZ"@.len());
    assert("BracketLeft"@.len() != "Minus"@.len());
    assert("BracketLeft"@.len() != "Space"@.len());
    assert("BracketRight"@.len() != "Comma"@.len());
    assert("BracketRight"@.len() != "Equal"@.len());
    assert("BracketRight"@.len() != "KeyA"@.len());
    assert("BracketRight"@.len() != "KeyD"@.len());
    assert("BracketRight"@.len() != "KeyJ"@.len());
    assert("BracketRight"@.len() != "KeyL"@.len());
    assert("BracketRight"@.len() != "KeyM"@.len());
    assert("BracketRight"@.len() != "KeyN"@.len());
    assert("BracketRight"@.len() != "KeyO"@.len());
    assert("BracketRight"@.len() != "KeyR"@.len());
    assert("BracketRight"@.len() != "KeyS"@.len());
    assert("BracketRight"@.len() != "KeyT"@.len());
    assert("BracketRight"@.len() != "KeyW"@.len());
    assert("BracketRight"@.len() != "KeyY"@.len());
    assert("BracketRight"@.len() != "KeyZ"@.len());
    assert("BracketRight"@.len() != "Minus"@.len());
    assert("BracketRight"@.len() != "Space"@.len());
    assert("Comma"@[0] != "Equal"@[0]);
    assert("Comma"@.len() != "KeyA"@.len());
    assert("Comma"@.len() != "KeyD"@.len());
    assert("Comma"@.len() != "KeyJ"@.len());
    assert("Comma"@.len() != "KeyL"@.len());
    assert("Comma"@.len() != "KeyM"@.len());
    assert("Comma"@.len() != "KeyN"@.len());
    assert("Comma"@.len() != "KeyO"@.len());
    assert("Comma"@.len() != "KeyR"@.len());
    assert("Comma"@.len() != "KeyS"@.len());
    assert("Comma"@.len() != "KeyT"@.len());
    assert("Comma"@.len() != "KeyW"@.len());
    assert("Comma"@.len() != "KeyY"@.len());
    assert("Comma"@.len() != "KeyZ"@.len());
    assert("Comma"@[0] != "Minus"@[0]);
    assert("Comma"@[0] != "Space"@[0]);
    assert("Equal"@.len() != "KeyA"@.len());
    assert("Equal"@.len() != "KeyD"@.len());
    assert("Equal"@.len() != "KeyJ"@.len());
    assert("Equal"@.len() != "KeyL"@.len());
    assert("Equal"@.len() != "KeyM"@.len());
    assert("Equal"@.len() != "KeyN"@.len());
    assert("Equal"@.len() != "KeyO"@.len());
    assert("Equal"@.len() != "KeyR"@.len());
    assert("Equal"@.len() != "KeyS"@.len());
    assert("Equal"@.len() != "KeyT"@.len());
    assert("Equal"@.len() != "KeyW"@.len());
    assert("Equal"@.len() != "KeyY"@.len());
    assert("Equal"@.len() != "KeyZ"@.len());
    assert("Equal"@[0] != "Minus"@[0]);
    assert("Equal"@[0] != "Space"@[0]);
    assert("KeyA"@[3] != "KeyD"@[3]);
    assert("KeyA"@[3] != "KeyJ"@[3]);
    assert("KeyA"@[3] != "KeyL"@[3]);
    assert("KeyA"@[3] != "KeyM"@[3]);
    assert("KeyA"@[3] != "KeyN"@[3]);
    assert("KeyA"@[3] != "KeyO"@[3]);
    assert("KeyA"@[3] != "KeyR"@[3]);
    assert("KeyA"@[3] != "KeyS"@[3]);
    assert("KeyA"@[3] != "KeyT"@[3]);
    assert("KeyA"@[3] != "KeyW"@[3]);
    assert("KeyA"@[3] != "KeyY"@[3]);
    assert("KeyA"@[3] != "KeyZ"@[3]);
    assert("KeyA"@.len() != "Minus"@.len());
    assert("KeyA"@.len() != "Space"@.len());
    assert("KeyD"@[3] != "KeyJ"@[3]);
    assert("KeyD"@[3] != "KeyL"@[3]);
    assert("KeyD"@[3] != "KeyM"@[3]);
    assert("KeyD"@[3] != "KeyN"@[3]);
    assert("KeyD"@[3] != "KeyO"@[3]);
    assert("KeyD"@[3] != "KeyR"@[3]);
    assert("KeyD"@[3] != "KeyS"@[3]);
    assert("KeyD"@[3] != "KeyT"@[3]);
    assert("KeyD"@[3] != "KeyW"@[3]);
    assert("KeyD"@[3] != "KeyY"@[3]);
    assert("KeyD"@[3] != "KeyZ"@[3]);
    assert("KeyD"@.len() != "Minus"@.len());
    assert("KeyD"@.len() != "Space"@.len());
    assert("KeyJ"@[3] != "KeyL"@[3]);
    assert("KeyJ"@[3] != "KeyM"@[3]);
    assert("KeyJ"@[3] != "KeyN"@[3]);
    assert("KeyJ"@[3] != "KeyO"@[3]);
    assert("KeyJ"@[3] != "KeyR"@[3]);
    assert("KeyJ"@[3] != "KeyS"@[3]);
    assert("KeyJ"@[3] != "KeyT"@[3]);
    assert("KeyJ"@[3] != "KeyW"@[3]);
    assert("KeyJ"@[3] != "KeyY"@[3]);
    assert("KeyJ"@[3] != "KeyZ"@[3]);
    assert("KeyJ"@.len() != "Minus"@.len());
    assert("KeyJ"@.len() != "Space"@.len());
    assert("KeyL"@[3] != "KeyM"@[3]);
    assert("KeyL"@[3] != "KeyN"@[3]);
    assert("KeyL"@[3] != "KeyO"@[3]);
    assert("KeyL"@[3] != "KeyR"@[3]);
    assert("KeyL"@[3] != "KeyS"@[3]);
    assert("KeyL"@[3] != "KeyT"@[3]);
    assert("KeyL"@[3] != "KeyW"@[3]);
    assert("KeyL"@[3] != "KeyY"@[3]);
    assert("KeyL"@[3] != "KeyZ"@[3]);
    assert("KeyL"@.len() != "Minus"@.len());
    assert("KeyL"@.len() != "Space"@.len());
    assert("KeyM"@[3] != "KeyN"@[3]);
    assert("KeyM"@[3] != "KeyO"@[3]);
    assert("KeyM"@[3] != "KeyR"@[3]);
    assert("KeyM"@[3] != "KeyS"@[3]);
    assert("KeyM"@[3] != "KeyT"@[3]);
    assert("KeyM"@[3] != "KeyW"@[3]);
    assert("KeyM"@[3] != "KeyY"@[3]);
    assert("KeyM"@[3] != "KeyZ"@[3]);
    assert("KeyM"@.len() != "Minus"@.len());
    assert("KeyM"@.len() != "Space"@.len());
    assert("KeyN"@[3] != "KeyO"@[3]);
    assert("KeyN"@[3] != "KeyR"@[3]);
    assert("KeyN"@[3] != "KeyS"@[3]);
    assert("KeyN"@[3] != "KeyT"@[3]);
    assert("KeyN"@[3] != "KeyW"@[3]);
    assert("KeyN"@[3] != "KeyY"@[3]);
    assert("KeyN"@[3] != "KeyZ"@[3]);
    assert("KeyN"@.len() != "Minus"@.len());
    assert("KeyN"@.len() != "Space"@.len());
    assert("KeyO"@[3] != "KeyR"@[3]);
    assert("KeyO"@[3] != "KeyS"@[3]);
    assert("KeyO"@[3] != "KeyT"@[3]);
    assert("KeyO"@[3] != "KeyW"@[3]);
    assert("KeyO"@[3] != "KeyY"@[3]);
    assert("KeyO"@[3] != "KeyZ"@[3]);
    assert("KeyO"@.len() != "Minus"@.len());
    assert("KeyO"@.len() != "Space"@.len());
    assert("KeyR"@[3] != "KeyS"@[3]);
    assert("KeyR"@[3] != "KeyT"@[3]);
    assert("KeyR"@[3] != "KeyW"@[3]);
    assert("KeyR"@[3] != "KeyY"@[3]);
    assert("KeyR"@[3] != "KeyZ"@[3]);
    assert("KeyR"@.len() != "Minus"@.len());
    assert("KeyR"@.len() != "Space"@.len());
    assert("KeyS"@[3] != "KeyT"@[3]);
    assert("KeyS"@[3] != "KeyW"@[3]);
    assert("KeyS"@[3] != "KeyY"@[3]);
    assert("KeyS"@[3] != "KeyZ"@[3]);
    assert("KeyS"@.len() != "Minus"@.len());
    assert("KeyS"@.len() != "Space"@.len());
    assert("KeyT"@[3] != "KeyW"@[3]);
    assert("KeyT"@[3] != "KeyY"@[3]);
    assert("KeyT"@[3] != "KeyZ"@[3]);
    assert("KeyT"@.len() != "Minus"@.len());
    assert("KeyT"@.len() != "Space"@.len());
    assert("KeyW"@[3] != "KeyY"@[3]);
    assert("KeyW"@[3] != "KeyZ"@[3]);
    assert("KeyW"@.len() != "Minus"@.len());
    assert("KeyW"@.len() != "Space"@.len());
    assert("KeyY"@[3] != "KeyZ"@[3]);
    assert("KeyY"@.len() != "Minus"@.len());
    assert("KeyY"@.len() != "Space"@.len());
    assert("KeyZ"@.len() != "Minus"@.len());
    assert("KeyZ"@.len() != "Space"@.len());
    assert("Minus"@[0] != "Space"@[0]);
}

/// Position of an action id among the definitions (-1 for an unknown id).
spec fn definition_rank(id: Seq<char>) -> int {
    if id == "pan_up"@ {
        0
    } else if id == "pan_left"@ {
        1
    } else if id == "pan_down"@ {
        2
    } else if id == "pan_right"@ {
        3
    } else if id == "pan_toggle"@ {
        4
    } else if id == "zoom_in"@ {
        5
    } else if id == "zoom_out"@ {
        6
    } else if id == "horizontal_scale_increase"@ {
        7
    } else if id == "horizontal_scale_decrease"@ {
        8
    } else if id == "reset_view"@ {
        9
    } else if id == "add_station"@ {
        10
    } else if id == "add_track"@ {
        11
    } else if id == "add_junction"@ {
        12
    } else if id == "create_view"@ {
        13
    } else if id == "manage_projects"@ {
        14
    } else if id == "create_line"@ {
        15
    } else if id == "import_data"@ {
        16
    } else if id == "open_settings"@ {
        17
    } else if id == "undo"@ {
        18
    } else if id == "redo"@ {
        19
    } else {
        -1
    }
}

/// Position of a key combination among the default shortcuts of a platform
/// (-1 when it is none of them).
spec fn shortcut_rank(is_mac: bool, s: ShortcutView) -> int {
    let d = definitions_spec(is_mac);
    if s == d[0].3 {
        0
    } else if s == d[1].3 {
        1
    } else if s == d[2].3 {
        2
    } else if s == d[3].3 {
        3
    } else if s == d[4].3 {
        4
    } else if s == d[5].3 {
        5
    } else if s == d[6].3 {
        6
    } else if s == d[7].3 {
        7
    } else if s == d[8].3 {
        8
    } else if s == d[9].3 {
        9
    } else if s == d[10].3 {
        10
    } else if s == d[11].3 {
        11
    } else if s == d[12].3 {
        12
    } else if s == d[13].3 {
        13
    } else if s == d[14].3 {
        14
    } else if s == d[15].3 {
        15
    } else if s == d[16].3 {
        16
    } else if s == d[17].3 {
        17
    } else if s == d[18].3 {
        18
    } else if s == d[19].3 {
        19
    } else {
        -1
    }
}

proof fn lemma_definition_ranks(is_mac: bool, i: int)
    requires
        0 <= i < definitions_spec(is_mac).len(),
    ensures
        definition_rank(definitions_spec(is_mac)[i].0) == i,
        shortcut_rank(is_mac, definitions_spec(is_mac)[i].3) == i,
{
    lemma_definition_literals_distinct();
    let d = definitions_spec(is_mac);
    assert(d.len() == 20);
    if i == 0 {
        assert(definition_rank(d[0].0) == 0);
        assert(shortcut_rank(is_mac, d[0].3) == 0);
    } else if i == 1 {
        assert(definition_rank(d[1].0) == 1);
        assert(shortcut_rank(is_mac, d[1].3) == 1);
    } else if i == 2 {
        assert(definition_rank(d[2].0) == 2);
        assert(shortcut_rank(is_mac, d[2].3) == 2);
    } else if i == 3 {
        assert(definition_rank(d[3].0) == 3);
        assert(shortcut_rank(is_mac, d[3].3) == 3);
    } else if i == 4 {
        assert(definition_rank(d[4].0) == 4);
        assert(shortcut_rank(is_mac, d[4].3) == 4);
    } else if i == 5 {
        assert(definition_rank(d[5].0) == 5);
        assert(shortcut_rank(is_mac, d[5].3) == 5);
    } else if i == 6 {
        assert(definition_rank(d[6].0) == 6);
        assert(shortcut_rank(is_mac, d[6].3) == 6);
    } else if i == 7 {
        assert(definition_rank(d[7].0) == 7);
        assert(shortcut_rank(is_mac, d[7].3) == 7);
    } else if i == 8 {
        assert(definition_rank(d[8].0) == 8);
        assert(shortcut_rank(is_mac, d[8].3) == 8);
    } else if i == 9 {
        assert(definition_rank(d[9].0) == 9);
        assert(shortcut_rank(is_mac, d[9].3) == 9);
    } else if i == 10 {
        assert(definition_rank(d[10].0) == 10);
        assert(shortcut_rank(is_mac, d[10].3) == 10);
    } else if i == 11 {
        assert(definition_rank(d[11].0) == 11);
        assert(shortcut_rank(is_mac, d[11].3) == 11);
    } else if i == 12 {
        assert(definition_rank(d[12].0) == 12);
        assert(shortcut_rank(is_mac, d[12].3) == 12);
    } else if i == 13 {
        assert(definition_rank(d[13].0) == 13);
        assert(shortcut_rank(is_mac, d[13].3) == 13);
    } else if i == 14 {
        assert(definition_rank(d[14].0) == 14);
        assert(shortcut_rank(is_mac, d[14].3) == 14);
    } else if i == 15 {
        assert(definition_rank(d[15].0) == 15);
        assert(shortcut_rank(is_mac, d[15].3) == 15);
    } else if i == 16 {
        assert(definition_rank(d[16].0) == 16);
        assert(shortcut_rank(is_mac, d[16].3) == 16);
    } else if i == 17 {
        assert(definition_rank(d[17].0) == 17);
        assert(shortcut_rank(is_mac, d[17].3) == 17);
    } else if i == 18 {
        assert(definition_rank(d[18].0) == 18);
        assert(shortcut_rank(is_mac, d[18].3) == 18);
    } else if i == 19 {
        assert(definition_rank(d[19].0) == 19);
        assert(shortcut_rank(is_mac, d[19].3) == 19);
    }
}


/// The table that inserting definitions with all-different ids produces
/// holds exactly their ids, each with its own shortcut.
proof fn lemma_fold_definitions(d: Seq<EntryView>)
    requires
        forall|i: int, j: int| 0 <= i < j < d.len() ==> d[i].0 != d[j].0,
    ensures
        forall|k: Seq<char>| #[trigger] fold_definitions(d).contains_key(k) <==> exists|i: int| 0 <= i < d.len() && d[i].0 == k,
        forall|i: int| 0 <= i < d.len() ==> #[trigger] fold_definitions(d)[d[i].0] == Some(d[i].3),
        fold_definitions(d).dom().finite(),
        fold_definitions(d).dom().len() == d.len(),
    decreases d.len(),
{
    if d.len() > 0 {
        let p = d.drop_last();
        lemma_fold_definitions(p);
        let m = fold_definitions(p);
        assert(!m.contains_key(d.last().0)) by {
            if m.contains_key(d.last().0) {
                let i = choose|i: int| 0 <= i < p.len() && p[i].0 == d.last().0;
                assert(d[i].0 == d[d.len() - 1].0);
            }
        }
        assert forall|k: Seq<char>| #[trigger] fold_definitions(d).contains_key(k) <==> exists|i: int| 0 <= i < d.len() && d[i].0 == k by {
            if m.contains_key(k) {
                let i = choose|i: int| 0 <= i < p.len() && p[i].0 == k;
                assert(d[i].0 == k);
            }
            if exists|i: int| 0 <= i < d.len() && d[i].0 == k {
                let i = choose|i: int| 0 <= i < d.len() && d[i].0 == k;
                if i < d.len() - 1 {
                    assert(p[i].0 == k);
                }
            }
        }
        assert forall|i: int| 0 <= i < d.len() implies #[trigger] fold_definitions(d)[d[i].0] == Some(d[i].3) by {
            if i < d.len() - 1 {
                assert(p[i] == d[i]);
                assert(d[i].0 != d[d.len() - 1].0);
            }
        }
        assert(fold_definitions(d).dom() =~= m.dom().insert(d.last().0));
    }
}

/// Every action of a default table is bound, the table knows exactly the
/// defined actions (one per definition), and pressing an action's default
/// key combination finds that action again.
pub proof fn law_defaults_find_their_action(t: &KeyboardShortcuts, is_mac: bool)
    requires
        t.wf(),
        t.view() == defaults_map(is_mac),
    ensures
        ({
            let d = definitions_spec(is_mac);
            &&& t.view().dom().len() == d.len()
            &&& forall|k: Seq<char>| #[trigger] t.view().contains_key(k) <==> exists|i: int| 0 <= i < d.len() && d[i].0 == k
            &&& forall|i: int| 0 <= i < d.len() ==> {
                &&& t.view()[#[trigger] d[i].0] == Some(d[i].3)
                &&& t.indexed().contains_key(d[i].3)
                &&& t.indexed()[d[i].3] == d[i].0
            }
        }),
{
    let d = definitions_spec(is_mac);
    assert forall|i: int, j: int| 0 <= i < j < d.len() implies d[i].0 != d[j].0 && d[i].3 != d[j].3 by {
        lemma_definition_ranks(is_mac, i);
        lemma_definition_ranks(is_mac, j);
    }
    lemma_fold_definitions(d);
    t.lemma_index_consistent();
    assert forall|i: int| 0 <= i < d.len() implies {
        &&& t.view()[#[trigger] d[i].0] == Some(d[i].3)
        &&& t.indexed().contains_key(d[i].3)
        &&& t.indexed()[d[i].3] == d[i].0
    } by {
        assert(fold_definitions(d)[d[i].0] == Some(d[i].3));
        assert(t.view().contains_key(d[i].0));
        let s = d[i].3;
        assert(t.indexed().contains_key(s));
        let k = t.indexed()[s];
        assert(t.view().contains_key(k) && t.view()[k] == Some(s));
        let j = choose|j: int| 0 <= j < d.len() && d[j].0 == k;
        assert(fold_definitions(d)[d[j].0] == Some(d[j].3));
        if j != i {
            if j < i {
                assert(d[j].3 != d[i].3);
            } else {
                assert(d[i].3 != d[j].3);
            }
        }
    }
}
} // verus!
