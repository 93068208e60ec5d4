//! Line-level settings: how a line's departures are scheduled, and which
//! direction or end of a route an edit refers to.

use vstd::prelude::*;
use crate::text::{occurs_at, decimal_spec, push_decimal, chars_of, string_of, occurs_at_exec, push_char};
use crate::parsing::{parse_i32_spec, parse_i32};
use crate::route::LineRoutes;
use crate::days_of_week::DaysOfWeek;

verus! {

/// How a line's departures are produced.
#[derive(Debug, Clone, Copy, PartialEq, Eq, Structural)]
pub enum ScheduleMode {
    /// Regular departures from a frequency.
    Auto,
    /// Explicitly listed departures.
    Manual,
}

impl Default for ScheduleMode {
    fn default() -> (r: Self)
        ensures
            r == ScheduleMode::Auto,
    {
        ScheduleMode::Auto
    }
}

/// Which of a line's two routes.
#[derive(Debug, Clone, Copy, PartialEq, Eq, Structural)]
pub enum RouteDirection {
    Forward,
    Return,
}

/// Which end of a route.
#[derive(Debug, Clone, Copy, PartialEq, Eq, Structural)]
pub enum StationPosition {
    Start,
    End,
}

/// The last position at or before `i` where `p` occurs in `s`.
pub open spec fn last_occurrence(s: Seq<char>, p: Seq<char>, i: int) -> Option<int>
    decreases i,
{
    if i < 0 {
        None
    } else if occurs_at(s, p, i) {
        Some(i)
    } else if i == 0 {
        None
    } else {
        last_occurrence(s, p, i - 1)
    }
}

proof fn lemma_last_occurrence(s: Seq<char>, p: Seq<char>, i: int)
    ensures
        last_occurrence(s, p, i) matches Some(k) ==> 0 <= k <= i && occurs_at(s, p, k),
    decreases i,
{
    if i > 0 && !occurs_at(s, p, i) {
        lemma_last_occurrence(s, p, i - 1);
    }
}

/// A name of the form `"<base> (<n>)"`: its base and number.
pub open spec fn numbered_name(name: Seq<char>) -> Option<(Seq<char>, int)> {
    if name.len() > 0 && name.last() == ')' {
        let rest = name.drop_last();
        match last_occurrence(rest, " ("@, rest.len() as int) {
            Some(p) => match parse_i32_spec(rest.subrange(p + 2, rest.len() as int)) {
                Some(n) => Some((rest.take(p), n)),
                None => None,
            },
            None => None,
        }
    } else {
        None
    }
}

/// Decimal text of an integer, with a minus sign when negative.
pub open spec fn signed_decimal(v: int) -> Seq<char> {
    if v < 0 {
        "-"@ + decimal_spec((-v) as nat)
    } else {
        decimal_spec(v as nat)
    }
}

/// Name of a duplicated line: a name ending in `" (N)"` gets `N + 1`, any
/// other name gets `" (1)"` appended.
pub open spec fn duplicate_name_spec(name: Seq<char>) -> Seq<char> {
    match numbered_name(name) {
        Some((base, n)) => base + " ("@ + signed_decimal(n + 1) + ")"@,
        None => name + " (1)"@,
    }
}

fn last_occurrence_exec(s: &[char], p: &[char]) -> (r: Option<usize>)
    ensures
        r matches Some(k) ==> last_occurrence(s@, p@, s@.len() as int) == Some(k as int) && k <= s@.len(),
        r is None ==> last_occurrence(s@, p@, s@.len() as int) is None,
{
    let mut i: usize = s.len();
    while i > 0
        invariant
            i <= s@.len(),
            last_occurrence(s@, p@, s@.len() as int) == last_occurrence(s@, p@, i as int),
        decreases i,
    {
        if occurs_at_exec(s, p, i) {
            return Some(i);
        }
        i = i - 1;
    }
    if occurs_at_exec(s, p, 0) {
        return Some(0);
    }
    None
}

/// Generate a name for a duplicated line: if the name ends with `" (N)"`,
/// increment N; otherwise append `" (1)"`.
pub fn generate_duplicate_name(original_name: &str) -> (r: String)
    requires
        numbered_name(original_name@) matches Some((_b, n)) ==> n < 2147483647,
    ensures
        r@ == duplicate_name_spec(original_name@),
{
    let cs = chars_of(original_name);
    let n = cs.len();
    if n > 0 && cs[n - 1] == ')' {
        let ghost rest = cs@.drop_last();
        let rest_len = n - 1;
        let pat = chars_of(" (");
        proof {
            reveal_strlit(" (");
        }
        let rv = crate::text::string_of(cs.as_slice(), 0, rest_len);
        let rest_chars = chars_of(rv.as_str());
        assert(rest_chars@ =~= rest);
        let found = last_occurrence_exec(rest_chars.as_slice(), pat.as_slice());
        if let Some(p) = found {
            proof {
                lemma_last_occurrence(rest, " ("@, rest.len() as int);
            }
            assert(occurs_at(rest, " ("@, p as int));
            assert(p + 2 <= rest_len);
            let num = crate::text::string_of(rest_chars.as_slice(), p + 2, rest_len);
            let num_chars = chars_of(num.as_str());
            match parse_i32(num_chars.as_slice()) {
                Some(v) => {
                    let mut out = crate::text::string_of(rest_chars.as_slice(), 0, p);
                    assert(out@ =~= rest.take(p as int));
                    out.append(" (");
                    let w: i64 = v as i64 + 1;
                    if w < 0 {
                        push_char(&mut out, '-');
                        push_decimal(&mut out, (-w) as u64);
                        assert("-"@ =~= seq!['-']) by { reveal_strlit("-"); }
                    } else {
                        push_decimal(&mut out, w as u64);
                    }
                    out.append(")");
                    assert(out@ =~= duplicate_name_spec(original_name@));
                    return out;
                },
                None => {},
            }
        }
    }
    let mut out = String::from_str(original_name);
    out.append(" (1)");
    out
}


/// A new line's settings, apart from its identity, colour and drawn
/// thickness, which the application assigns. Times of day are seconds after
/// midnight, the frequency is in seconds, and dwell times are nanoseconds.
pub struct NewLine {
    pub name: String,
    /// Seed of the line's generated colour.
    pub color_seed: usize,
    pub frequency: i64,
    pub first_departure: i64,
    pub return_first_departure: i64,
    pub last_departure: i64,
    pub return_last_departure: i64,
    pub visible: bool,
    pub schedule_mode: ScheduleMode,
    pub days_of_week: DaysOfWeek,
    pub auto_train_number_format: String,
    pub default_wait_time: i128,
    pub return_first_stop_wait_time: i128,
    pub sync_departure_offsets: bool,
    /// Empty routes, kept in sync, with no dwell at the first stop.
    pub routes: LineRoutes,
}

/// Minutes past the hour of the `i`-th new line's first departures: 15 per
/// line before it (saturating at `u32::MAX`; 0 past `u32::MAX` lines).
pub open spec fn start_offset_minutes(i: int) -> int {
    if i > u32::MAX {
        0
    } else if i * 15 > u32::MAX {
        u32::MAX as int
    } else {
        i * 15
    }
}

/// Seconds after midnight of `hour`:`minute`:00, or midnight when that is
/// not a time of day.
pub open spec fn clock_or_midnight(hour: int, minute: int) -> int {
    if 0 <= minute < 60 { hour * 3600 + minute * 60 } else { 0 }
}

/// The train number format new lines get.
pub open spec fn train_number_format() -> Seq<char> {
    seq!['{', 'l', 'i', 'n', 'e', '}', ' ', '{', 's', 'e', 'q', ':', '0', '4', '}']
}

/// The `i`-th of a batch of new lines is named `name` and seeded for colour
/// `i + color_offset`; it runs hourly every day under an automatic
/// schedule, visible, with its first departures at 05:MM and 06:MM (MM from
/// `start_offset_minutes`, midnight when that is no minute), last departures
/// at 22:00, a 30 s default dwell, no first-stop dwell, and empty synced routes.
pub open spec fn new_line_ok(l: NewLine, name: Seq<char>, i: int, color_offset: int) -> bool {
    &&& l.name@ == name
    &&& l.color_seed == i + color_offset
    &&& l.frequency == 3600
    &&& l.first_departure == clock_or_midnight(5, start_offset_minutes(i))
    &&& l.return_first_departure == clock_or_midnight(6, start_offset_minutes(i))
    &&& l.last_departure == 22 * 3600
    &&& l.return_last_departure == 22 * 3600
    &&& l.visible
    &&& l.schedule_mode == ScheduleMode::Auto
    &&& l.days_of_week.spec_bits() == 0x7f
    &&& l.auto_train_number_format@ == train_number_format()
    &&& l.default_wait_time == 30_000_000_000
    &&& l.return_first_stop_wait_time == 0
    &&& !l.sync_departure_offsets
    &&& l.routes.forward_route@.len() == 0
    &&& l.routes.return_route@.len() == 0
    &&& l.routes.sync_routes
    &&& l.routes.first_stop_wait_time == 0
}

/// The dwell at a stop of a new line: 30 s (in nanoseconds).
pub fn default_wait_time() -> (r: i128)
    ensures
        r == 30_000_000_000,
{
    30_000_000_000
}

/// The dwell at the first stop of a new line: none.
pub fn default_first_stop_wait_time() -> (r: i128)
    ensures
        r == 0,
{
    0
}

/// New lines are visible.
pub fn default_visible() -> (r: bool)
    ensures
        r,
{
    true
}

/// New lines keep their return route in sync with the forward route.
pub fn default_sync_routes() -> (r: bool)
    ensures
        r,
{
    true
}

/// New lines do not sync their departure offsets.
pub fn default_sync_departure_offsets() -> (r: bool)
    ensures
        !r,
{
    false
}

/// The train number format of new lines.
pub fn default_train_number_format() -> (r: String)
    ensures
        r@ == train_number_format(),
{
    let format = String::from_str("{line} {seq:04}");
    proof {
        reveal_strlit("{line} {seq:04}");
        assert(format@ =~= train_number_format());
    }
    format
}

/// The last return departure of a new line: 22:00 (seconds after midnight).
pub fn default_return_last_departure() -> (r: i64)
    ensures
        r == 22 * 3600,
{
    22 * 3600
}

fn start_offset_minutes_exec(i: usize) -> (r: u32)
    ensures
        r == start_offset_minutes(i as int),
{
    if i as u64 > 4294967295u64 {
        0
    } else {
        let m: u64 = (i as u64) * 15;
        if m > 4294967295u64 { 4294967295u32 } else { m as u32 }
    }
}

fn clock_or_midnight_exec(hour: i64, minute: u32) -> (r: i64)
    requires
        0 <= hour < 24,
    ensures
        r == clock_or_midnight(hour as int, minute as int),
{
    if minute < 60 { hour * 3600 + (minute as i64) * 60 } else { 0 }
}

/// Create lines from names with default settings (see `new_line_ok`);
/// `color_offset` shifts the colour seeds, to avoid repeating colours of
/// lines a project already has.
pub fn create_from_ids(line_names: &[String], color_offset: usize) -> (r: Vec<NewLine>)
    requires
        line_names@.len() == 0 || line_names@.len() - 1 + color_offset <= usize::MAX,
    ensures
        r@.len() == line_names@.len(),
        forall|i: int| 0 <= i < r@.len() ==> #[trigger] new_line_ok(r@[i], line_names@[i]@, i, color_offset as int),
{
    let mut out: Vec<NewLine> = Vec::new();
    let mut i: usize = 0;
    while i < line_names.len()
        invariant
            i <= line_names@.len(),
            line_names@.len() == 0 || line_names@.len() - 1 + color_offset <= usize::MAX,
            out@.len() == i,
            forall|k: int| 0 <= k < i ==> #[trigger] new_line_ok(out@[k], line_names@[k]@, k, color_offset as int),
        decreases line_names@.len() - i,
    {
        let minutes = start_offset_minutes_exec(i);
        out.push(NewLine {
            name: line_names[i].clone(),
            color_seed: i + color_offset,
            frequency: 3600,
            first_departure: clock_or_midnight_exec(5, minutes),
            return_first_departure: clock_or_midnight_exec(6, minutes),
            last_departure: 22 * 3600,
            return_last_departure: default_return_last_departure(),
            visible: default_visible(),
            schedule_mode: ScheduleMode::Auto,
            days_of_week: DaysOfWeek::ALL_DAYS(),
            auto_train_number_format: default_train_number_format(),
            default_wait_time: default_wait_time(),
            return_first_stop_wait_time: default_first_stop_wait_time(),
            sync_departure_offsets: default_sync_departure_offsets(),
            routes: LineRoutes {
                forward_route: Vec::new(),
                return_route: Vec::new(),
                sync_routes: default_sync_routes(),
                first_stop_wait_time: default_first_stop_wait_time(),
            },
        });
        i = i + 1;
    }
    out
}

} // verus!

