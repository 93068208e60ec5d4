//! NIMBY Rails export data: line colours, platform names, and how the
//! exported runs become a regular timetable.

use vstd::prelude::*;
use vstd::string::StringSliceAdditionalSpecFns;
use vstd::utf8::{decode_utf8, is_char_boundary, valid_utf8, encode_utf8};
use crate::order::{sorted_asc, strictly_increasing, sort_i64};
use crate::days_of_week::{DaysOfWeek, lemma_union_has_day, lemma_single_has_day, lemma_empty_has_no_day};
use crate::text::{all_digits, chars_of, string_of};

verus! {

/// Track area within a stop (contains platform info).
#[derive(Debug, Clone)]
pub struct NimbyTrackArea {
    pub platform_name: String,
}

/// A single run (trip) within a shift.
#[derive(Debug, Clone)]
pub struct NimbyRun {
    pub line_id: String,
    pub enter_stop_idx: usize,
    pub exit_stop_idx: usize,
    /// Alternating arrival/departure times in seconds: [arr0, dep0, arr1, dep1, ...]
    pub arrival_departure: Vec<i64>,
}

/// A shift containing multiple runs (operated by one train).
#[derive(Debug, Clone)]
pub struct NimbyShift {
    pub id: String,
    pub name: String,
    pub runs: Vec<NimbyRun>,
}

/// A schedule containing shifts.
#[derive(Debug, Clone)]
pub struct NimbySchedule {
    pub id: String,
    pub name: String,
    pub shifts: Vec<NimbyShift>,
}

/// Summary of a line for display in the UI.
#[derive(Debug, Clone)]
pub struct NimbyLineSummary {
    pub id: String,
    pub name: String,
    pub code: String,
    pub color: String,
    pub text_color: &'static str,
    pub stop_count: usize,
    pub station_count: usize,
}

/// The CSS colour of a NIMBY colour (`0xAABBGGRR` to `#RRGGBB`), over the
/// UTF-8 bytes of the input; anything else becomes grey.
pub open spec fn nimby_color_spec(b: Seq<u8>) -> Seq<char> {
    if b.len() >= 10 && b[0] == 48 && b[1] == 120 {
        "#"@ + decode_utf8(b.subrange(8, 10)) + decode_utf8(b.subrange(6, 8)) + decode_utf8(b.subrange(4, 6))
    } else {
        "#808080"@
    }
}

/// The byte offsets that `parse_nimby_color` slices at fall on character
/// boundaries (slicing elsewhere would panic).
pub open spec fn nimby_color_sliceable(b: Seq<u8>) -> bool {
    b.len() >= 10 && b[0] == 48 && b[1] == 120 ==> {
        &&& is_char_boundary(b, 4)
        &&& is_char_boundary(b, 6)
        &&& is_char_boundary(b, 8)
        &&& is_char_boundary(b, 10)
    }
}

proof fn lemma_boundary_shift(b: Seq<u8>, k: int, m: int)
    requires
        valid_utf8(b),
        is_char_boundary(b, k),
        0 <= k <= m <= b.len(),
        is_char_boundary(b, m),
    ensures
        valid_utf8(b.subrange(k, b.len() as int)),
        is_char_boundary(b.subrange(k, b.len() as int), m - k),
{
    broadcast use vstd::utf8::valid_utf8_split;
    broadcast use vstd::utf8::is_char_boundary_iff_not_is_continuation_byte;
    broadcast use vstd::utf8::is_char_boundary_start_end_of_seq;
    let t = b.subrange(k, b.len() as int);
    assert(valid_utf8(t));
    if m < b.len() {
        assert(t[m - k] == b[m]);
        assert(is_char_boundary(b, m) <==> !vstd::utf8::is_continuation_byte(b[m]));
        assert(is_char_boundary(t, m - k) <==> !vstd::utf8::is_continuation_byte(t[m - k]));
    } else {
        assert(m - k == t.len());
    }
}

/// Convert NIMBY color format (0xAABBGGRR) to CSS hex (#RRGGBB).
pub fn parse_nimby_color(color: &str) -> (r: String)
    requires
        nimby_color_sliceable(color.spec_bytes()),
    ensures
        r@ == nimby_color_spec(color.spec_bytes()),
{
    broadcast use vstd::utf8::encode_utf8_valid_utf8;
    broadcast use vstd::utf8::encode_utf8_decode_utf8;
    let bytes = color.as_bytes();
    let ghost b = color.spec_bytes();
    if bytes.len() >= 10 && bytes[0] == 48 && bytes[1] == 120 {
        proof {
            assert(valid_utf8(b));
            lemma_boundary_shift(b, 4, 6);
            lemma_boundary_shift(b, 6, 8);
            lemma_boundary_shift(b, 8, 10);
        }
        let (_, rest4) = color.split_at(4);
        assert(rest4.spec_bytes() =~= b.subrange(4, b.len() as int));
        let (bb, rest6) = rest4.split_at(2);
        assert(rest6.spec_bytes() =~= b.subrange(6, b.len() as int));
        assert(bb.spec_bytes() =~= b.subrange(4, 6));
        let (gg, rest8) = rest6.split_at(2);
        assert(rest8.spec_bytes() =~= b.subrange(8, b.len() as int));
        assert(gg.spec_bytes() =~= b.subrange(6, 8));
        let (rr, _) = rest8.split_at(2);
        assert(rr.spec_bytes() =~= b.subrange(8, 10));
        proof {
            assert(rr@ == decode_utf8(encode_utf8(rr@)));
            assert(gg@ == decode_utf8(encode_utf8(gg@)));
            assert(bb@ == decode_utf8(encode_utf8(bb@)));
        }
        let mut out = String::from_str("#");
        out.append(rr);
        out.append(gg);
        out.append(bb);
        return out;
    }
    String::from_str("#808080")
}

/// Whether `parse_nimby_color` can take `color`: its slices of a
/// `0x`-prefixed colour fall on character boundaries.
pub fn nimby_color_parses(color: &str) -> (r: bool)
    ensures
        r == nimby_color_sliceable(color.spec_bytes()),
{
    broadcast use vstd::utf8::encode_utf8_valid_utf8;
    broadcast use vstd::utf8::is_char_boundary_iff_not_is_continuation_byte;
    broadcast use vstd::utf8::is_char_boundary_start_end_of_seq;
    let bytes = color.as_bytes();
    let ghost b = color.spec_bytes();
    assert(valid_utf8(b));
    if bytes.len() >= 10 && bytes[0] == 48 && bytes[1] == 120 {
        let c4 = 0x80 <= bytes[4] && bytes[4] <= 0xbf;
        let c6 = 0x80 <= bytes[6] && bytes[6] <= 0xbf;
        let c8 = 0x80 <= bytes[8] && bytes[8] <= 0xbf;
        let c10 = bytes.len() > 10 && 0x80 <= bytes[10] && bytes[10] <= 0xbf;
        proof {
            assert(bytes@ == b);
            assert(is_char_boundary(b, 4) <==> !vstd::utf8::is_continuation_byte(b[4]));
            assert(is_char_boundary(b, 6) <==> !vstd::utf8::is_continuation_byte(b[6]));
            assert(is_char_boundary(b, 8) <==> !vstd::utf8::is_continuation_byte(b[8]));
            if b.len() == 10 {
                assert(is_char_boundary(b, 10));
            } else {
                assert(is_char_boundary(b, 10) <==> !vstd::utf8::is_continuation_byte(b[10]));
            }
        }
        !c4 && !c6 && !c8 && !c10
    } else {
        true
    }
}

/// A platform name with a trailing compass letter (N, E, S, W) after a
/// number loses the letter ("4S" becomes "4").
pub open spec fn normalized_platform_spec(name: Seq<char>) -> Seq<char> {
    if name.len() > 1 && (name.last() == 'N' || name.last() == 'E' || name.last() == 'S' || name.last() == 'W')
        && all_digits(name.drop_last()) {
        name.drop_last()
    } else {
        name
    }
}

/// Strip cardinal direction suffix (N/E/S/W) from platform names like "4S" -> "4".
pub fn normalize_platform_name(name: &str) -> (r: String)
    ensures
        r@ == normalized_platform_spec(name@),
{
    let cs = chars_of(name);
    let n = cs.len();
    if n > 1 {
        let last = cs[n - 1];
        if last == 'N' || last == 'E' || last == 'S' || last == 'W' {
            let mut k: usize = 0;
            while k < n - 1
                invariant
                    n == cs@.len(),
                    cs@ == name@,
                    n > 1,
                    k <= n - 1,
                    forall|j: int| 0 <= j < k ==> '0' <= #[trigger] cs@[j] <= '9',
                decreases n - 1 - k,
            {
                if !('0' <= cs[k] && cs[k] <= '9') {
                    assert(!all_digits(cs@.drop_last())) by {
                        assert(cs@.drop_last()[k as int] == cs@[k as int]);
                    }
                    return String::from_str(name);
                }
                k = k + 1;
            }
            assert(all_digits(cs@.drop_last())) by {
                assert forall|j: int| 0 <= j < cs@.drop_last().len() implies
                    crate::text::is_digit(#[trigger] cs@.drop_last()[j]) by {
                    assert(cs@.drop_last()[j] == cs@[j]);
                }
            }
            let r = string_of(&cs, 0, n - 1);
            assert(cs@.subrange(0, n - 1) =~= cs@.drop_last());
            return r;
        }
    }
    String::from_str(name)
}

/// Classification of a run based on its stop range relative to the line's turnaround point.
#[derive(Debug, Clone, Copy, PartialEq, Eq, Structural)]
pub enum RunType {
    /// Covers the full loop (enter=0, exit=max)
    FullLoop,
    /// Forward journey only (enter=0, exit near the turnaround)
    ForwardOnly,
    /// Return journey only (enter near the turnaround, exit=max)
    ReturnOnly,
    /// Partial route (short-turn, express, etc.)
    Partial,
}

/// `idx` lies within two stops of the turnaround.
pub open spec fn near_turnaround(idx: int, turnaround: int) -> bool {
    (if turnaround >= 2 { turnaround - 2 } else { 0 }) <= idx <= turnaround + 2
}

/// The type of a run entering at `enter` and leaving at `exit`.
pub open spec fn run_type_spec(enter: int, exit: int, turnaround: Option<usize>, max_stop_idx: int) -> RunType {
    if enter == 0 && exit == max_stop_idx {
        RunType::FullLoop
    } else {
        match turnaround {
            None => RunType::Partial,
            Some(t) => if enter == 0 && near_turnaround(exit, t as int) {
                RunType::ForwardOnly
            } else if near_turnaround(enter, t as int) && exit == max_stop_idx {
                RunType::ReturnOnly
            } else {
                RunType::Partial
            },
        }
    }
}

/// Classify a run based on its stop range.
/// Uses a tolerance of two stops for turnaround matching to handle depot areas.
pub fn classify_run(run: &NimbyRun, turnaround_idx: Option<usize>, max_stop_idx: usize) -> (r: RunType)
    requires
        turnaround_idx matches Some(t) ==> t + 2 <= usize::MAX,
    ensures
        r == run_type_spec(run.enter_stop_idx as int, run.exit_stop_idx as int, turnaround_idx, max_stop_idx as int),
{
    let turnaround = match turnaround_idx {
        None => {
            if run.enter_stop_idx == 0 && run.exit_stop_idx == max_stop_idx {
                return RunType::FullLoop;
            }
            return RunType::Partial;
        },
        Some(t) => t,
    };
    let low = if turnaround >= 2 { turnaround - 2 } else { 0 };
    let is_near_turnaround_exit = run.exit_stop_idx >= low && run.exit_stop_idx <= turnaround + 2;
    let is_near_turnaround_enter = run.enter_stop_idx >= low && run.enter_stop_idx <= turnaround + 2;
    if run.enter_stop_idx == 0 && run.exit_stop_idx == max_stop_idx {
        RunType::FullLoop
    } else if run.enter_stop_idx == 0 && is_near_turnaround_exit {
        RunType::ForwardOnly
    } else if is_near_turnaround_enter && run.exit_stop_idx == max_stop_idx {
        RunType::ReturnOnly
    } else {
        RunType::Partial
    }
}

/// Whether `departure` lies within two minutes of `first + k * frequency` for some integer `k`.
pub open spec fn fits_pattern_spec(departure: int, first: int, frequency: int) -> bool {
    frequency > 0 && {
        let rem = (departure - first) % frequency;
        rem < 120 || rem > frequency - 120
    }
}

/// Check if a departure time fits the pattern first + N*frequency (within 2 minutes tolerance).
pub fn fits_frequency_pattern(departure: i64, first: i64, frequency_secs: i64) -> (r: bool)
    requires
        i64::MIN <= departure - first <= i64::MAX,
    ensures
        r == fits_pattern_spec(departure as int, first as int, frequency_secs as int),
{
    if frequency_secs <= 0 {
        return false;
    }
    let offset = departure - first;
    let remainder: i64 = if offset >= 0 {
        offset % frequency_secs
    } else {
        let k: i64 = -(offset + 1);
        let m = k % frequency_secs;
        proof {
            let f = frequency_secs as int;
            let o = offset as int;
            let ki = k as int;
            vstd::arithmetic::div_mod::lemma_fundamental_div_mod(ki, f);
            let q = -(ki / f) - 1;
            let rr = f - 1 - ki % f;
            assert(0 <= ki % f < f);
            assert(o == q * f + rr) by (nonlinear_arith)
                requires ki == f * (ki / f) + (ki % f), o == -(ki + 1), q == -(ki / f) - 1, rr == f - 1 - ki % f;
            vstd::arithmetic::div_mod::lemma_fundamental_div_mod_converse_mod(o, f, q, rr);
            assert(m as int == ki % f);
        }
        frequency_secs - 1 - m
    };
    remainder < 120 || remainder > frequency_secs - 120
}

/// Number of departures that fit the pattern based at `first`.
pub open spec fn pattern_matches(d: Seq<i64>, first: int, frequency: int) -> nat
    decreases d.len(),
{
    if d.len() == 0 {
        0
    } else {
        pattern_matches(d.drop_last(), first, frequency)
            + (if fits_pattern_spec(d.last() as int, first, frequency) { 1nat } else { 0nat })
    }
}

/// The best base among the first `n` departures: the first one whose pattern
/// matches most departures (starting from the first departure with no matches).
pub open spec fn best_base_upto(d: Seq<i64>, frequency: int, n: int) -> (i64, nat)
    decreases n,
{
    if n <= 0 {
        (d[0], 0)
    } else {
        let prev = best_base_upto(d, frequency, n - 1);
        let c = pattern_matches(d, d[n - 1] as int, frequency);
        if c > prev.1 {
            (d[n - 1], c)
        } else {
            prev
        }
    }
}

/// The departures' values lie close enough together that differences fit in an `i64`.
pub open spec fn differences_fit(d: Seq<i64>) -> bool {
    forall|i: int, j: int| 0 <= i < d.len() && 0 <= j < d.len() ==> i64::MIN <= #[trigger] d[i] - #[trigger] d[j] <= i64::MAX
}

/// Count the departures of `d` that fit the pattern based at `first`.
fn count_pattern_matches(d: &[i64], first: i64, frequency_secs: i64) -> (r: usize)
    requires
        forall|i: int| 0 <= i < d@.len() ==> i64::MIN <= #[trigger] d@[i] - first <= i64::MAX,
    ensures
        r == pattern_matches(d@, first as int, frequency_secs as int),
{
    let mut c: usize = 0;
    let mut i: usize = 0;
    while i < d.len()
        invariant
            i <= d@.len(),
            forall|k: int| 0 <= k < d@.len() ==> i64::MIN <= #[trigger] d@[k] - first <= i64::MAX,
            c == pattern_matches(d@.subrange(0, i as int), first as int, frequency_secs as int),
            c <= i,
        decreases d.len() - i,
    {
        assert(d@.subrange(0, i + 1).drop_last() =~= d@.subrange(0, i as int));
        if fits_frequency_pattern(d[i], first, frequency_secs) {
            c = c + 1;
        }
        i = i + 1;
    }
    assert(d@.subrange(0, i as int) =~= d@);
    c
}

/// Find the departure time that, when used as the pattern base, matches the most departures.
/// This handles cases where early departures are on a different timing offset than the main pattern.
pub fn find_best_first_departure(departures: &[i64], frequency_secs: i64) -> (r: Option<i64>)
    requires
        differences_fit(departures@),
    ensures
        departures@.len() == 0 ==> r is None,
        departures@.len() == 1 ==> r == Some(departures@[0]),
        departures@.len() > 1 ==> r == Some(best_base_upto(departures@, frequency_secs as int, departures@.len() as int).0),
{
    if departures.len() == 0 {
        return None;
    }
    if departures.len() == 1 {
        return Some(departures[0]);
    }
    let mut best_candidate = departures[0];
    let mut best_match_count: usize = 0;
    let mut i: usize = 0;
    while i < departures.len()
        invariant
            departures@.len() > 1,
            i <= departures@.len(),
            differences_fit(departures@),
            (best_candidate, best_match_count as nat) == best_base_upto(departures@, frequency_secs as int, i as int),
        decreases departures.len() - i,
    {
        let candidate = departures[i];
        let match_count = count_pattern_matches(departures, candidate, frequency_secs);
        if match_count > best_match_count {
            best_match_count = match_count;
            best_candidate = candidate;
        }
        i = i + 1;
    }
    Some(best_candidate)
}

/// Number of occurrences of `v` in `s`.
pub open spec fn count_in(s: Seq<i64>, v: i64) -> nat
    decreases s.len(),
{
    if s.len() == 0 {
        0
    } else {
        count_in(s.drop_last(), v) + (if s.last() == v { 1nat } else { 0nat })
    }
}

/// Gaps between consecutive departures of a sorted list, rounded down to whole minutes.
pub open spec fn rounded_gaps(t: Seq<i64>) -> Seq<i64> {
    Seq::new(
        (if t.len() >= 1 { t.len() - 1 } else { 0 }) as nat,
        |i: int| (((t[i + 1] - t[i]) / 60) * 60) as i64,
    )
}

/// `g` is a most common value of `gs`.
pub open spec fn is_mode(gs: Seq<i64>, g: i64) -> bool {
    gs.contains(g) && forall|h: i64| gs.contains(h) ==> count_in(gs, h) <= count_in(gs, g)
}

/// `g` is the smallest of the most common values of `gs`.
pub open spec fn preferred_mode(gs: Seq<i64>, g: i64) -> bool {
    is_mode(gs, g) && forall|h: i64| is_mode(gs, h) ==> g <= h
}

/// The service frequency of a sorted list of departures: the most common gap
/// (rounded down to whole minutes), provided it is at least five minutes.
/// Needs two departures.
pub open spec fn frequency_of_sorted(t: Seq<i64>) -> Option<i64> {
    if t.len() < 2 {
        None
    } else {
        let m = choose|m: i64| preferred_mode(rounded_gaps(t), m);
        if m < 300 {
            None
        } else {
            Some(m)
        }
    }
}

/// Count the occurrences of `v` in `s`.
fn count_value(s: &[i64], v: i64) -> (r: usize)
    ensures
        r == count_in(s@, v),
{
    let mut c: usize = 0;
    let mut i: usize = 0;
    while i < s.len()
        invariant
            i <= s@.len(),
            c == count_in(s@.subrange(0, i as int), v),
            c <= i,
        decreases s.len() - i,
    {
        assert(s@.subrange(0, i + 1).drop_last() =~= s@.subrange(0, i as int));
        if s[i] == v {
            c = c + 1;
        }
        i = i + 1;
    }
    assert(s@.subrange(0, i as int) =~= s@);
    c
}

/// Detect the most common interval between departures (in seconds).
/// None if there are fewer than 2 departures or the interval is under five minutes.
pub fn detect_frequency(departures: &[i64]) -> (r: Option<i64>)
    requires
        differences_fit(departures@),
    ensures
        departures@.len() < 2 ==> r is None,
        departures@.len() >= 2 ==> exists|t: Seq<i64>| sorted_asc(t) && t.to_multiset() == departures@.to_multiset()
            && r == frequency_of_sorted(t),
        sorted_asc(departures@) ==> r == frequency_of_sorted(departures@),
{
    if departures.len() < 2 {
        return None;
    }
    let sorted = sort_i64(departures);
    let ghost t = sorted@;
    proof {
        departures@.to_multiset_ensures();
        t.to_multiset_ensures();
        assert forall|i: int| 0 <= i < t.len() implies departures@.contains(#[trigger] t[i]) by {
            assert(t.contains(t[i]));
            assert(t.to_multiset().count(t[i]) > 0);
            assert(departures@.to_multiset().count(t[i]) > 0);
        }
    }
    let mut gaps: Vec<i64> = Vec::new();
    let mut i: usize = 0;
    while i + 1 < sorted.len()
        invariant
            t == sorted@,
            sorted_asc(t),
            t.len() >= 2,
            differences_fit(departures@),
            forall|k: int| 0 <= k < t.len() ==> departures@.contains(#[trigger] t[k]),
            i <= t.len() - 1,
            gaps@ == rounded_gaps(t).subrange(0, i as int),
        decreases sorted.len() - i,
    {
        proof {
            let a = choose|a: int| 0 <= a < departures@.len() && departures@[a] == t[i + 1];
            let b = choose|b: int| 0 <= b < departures@.len() && departures@[b] == t[i as int];
            assert(i64::MIN <= departures@[a] - departures@[b] <= i64::MAX);
        }
        let g = sorted[i + 1] - sorted[i];
        let rounded = (g / 60) * 60;
        gaps.push(rounded);
        i = i + 1;
        assert(gaps@ =~= rounded_gaps(t).subrange(0, i as int));
    }
    assert(gaps@ =~= rounded_gaps(t));
    let ghost gs = gaps@;
    let mut best_val = gaps[0];
    let mut best_count = count_value(&gaps, gaps[0]);
    let mut j: usize = 0;
    while j < gaps.len()
        invariant
            gs == gaps@,
            gs.len() >= 1,
            j <= gs.len(),
            gs.contains(best_val),
            best_count == count_in(gs, best_val),
            forall|k: int| 0 <= k < j ==> count_in(gs, #[trigger] gs[k]) < best_count
                || (count_in(gs, gs[k]) == best_count && best_val <= gs[k]),
        decreases gaps.len() - j,
    {
        let c = count_value(&gaps, gaps[j]);
        if c > best_count || (c == best_count && gaps[j] < best_val) {
            best_val = gaps[j];
            best_count = c;
        }
        j = j + 1;
    }
    proof {
        assert(is_mode(gs, best_val)) by {
            assert forall|h: i64| gs.contains(h) implies count_in(gs, h) <= count_in(gs, best_val) by {
                let k = choose|k: int| 0 <= k < gs.len() && gs[k] == h;
            }
        }
        assert(preferred_mode(gs, best_val)) by {
            assert forall|h: i64| is_mode(gs, h) implies best_val <= h by {
                let k = choose|k: int| 0 <= k < gs.len() && gs[k] == h;
                assert(count_in(gs, best_val) <= count_in(gs, h));
            }
        }
        let m = choose|m: i64| preferred_mode(rounded_gaps(t), m);
        assert(m == best_val);
        assert(sorted_asc(t) && t.to_multiset() == departures@.to_multiset());
    }
    if best_val < 300 {
        None
    } else {
        Some(best_val)
    }
}

/// Whole days (rounded toward zero) of an absolute departure time in seconds.
pub open spec fn day_index(raw: i64) -> int {
    if raw >= 0 {
        raw / 86400
    } else {
        -((-raw) / 86400)
    }
}

/// Time of day left after taking away the whole days (negative for negative times).
pub open spec fn time_of_day(raw: i64) -> int {
    raw - 86400 * day_index(raw)
}

/// A departure is counted when it falls on one of the seven days of the week.
pub open spec fn counted(raw: i64) -> bool {
    0 <= day_index(raw) < 7
}

/// Some counted raw departure runs at time of day `t`.
pub open spec fn raw_has_time(raw: Seq<i64>, t: i64) -> bool {
    exists|k: int| 0 <= k < raw.len() && counted(raw[k]) && time_of_day(raw[k]) == t
}

/// Some counted raw departure runs at time of day `t` on day `e`.
pub open spec fn raw_gives(raw: Seq<i64>, t: i64, e: int) -> bool {
    exists|k: int| 0 <= k < raw.len() && counted(raw[k]) && time_of_day(raw[k]) == t && day_index(raw[k]) == e
}

/// Time `t` has an entry in the day table.
pub open spec fn has_key(dd: Seq<(i64, DaysOfWeek)>, t: i64) -> bool {
    exists|p: int| 0 <= p < dd.len() && (#[trigger] dd[p]).0 == t
}

/// The day table lists day `e` for time `t`.
pub open spec fn day_listed(dd: Seq<(i64, DaysOfWeek)>, t: i64, e: int) -> bool {
    exists|p: int| 0 <= p < dd.len() && (#[trigger] dd[p]).0 == t && dd[p].1.has_day(e)
}

/// Each time appears at most once in the day table.
pub open spec fn keys_unique(dd: Seq<(i64, DaysOfWeek)>) -> bool {
    forall|p: int, q: int| 0 <= p < dd.len() && 0 <= q < dd.len() && p != q ==> (#[trigger] dd[p]).0 != (#[trigger] dd[q]).0
}

/// Every time in the day table lies strictly within one day of midnight.
pub open spec fn keys_in_day(dd: Seq<(i64, DaysOfWeek)>) -> bool {
    forall|p: int| 0 <= p < dd.len() ==> -86400 < (#[trigger] dd[p]).0 < 86400
}

/// The first departure of the regular pattern: the best pattern base when a
/// frequency was found, otherwise the earliest departure.
pub open spec fn first_departure_spec(d: Seq<i64>, frequency: Option<i64>) -> Option<i64> {
    if d.len() == 0 {
        None
    } else {
        match frequency {
            Some(f) => if d.len() == 1 {
                Some(d[0])
            } else {
                Some(best_base_upto(d, f as int, d.len() as int).0)
            },
            None => Some(d[0]),
        }
    }
}

/// Collected schedule data for a single direction.
pub struct DirectionSchedule {
    raw_departures: Vec<i64>,
    departures: Vec<i64>,
    departure_days: Vec<(i64, DaysOfWeek)>,
    first_departure: Option<i64>,
    last_departure: Option<i64>,
    frequency: Option<i64>,
    days_of_week: DaysOfWeek,
}

impl DirectionSchedule {
    /// Raw departure times (absolute seconds including day offset), in order added.
    pub closed spec fn raw(&self) -> Seq<i64> {
        self.raw_departures@
    }

    /// Normalized departure times (time of day), set by `finalize`.
    pub closed spec fn times(&self) -> Seq<i64> {
        self.departures@
    }

    /// Day table: time of day and the days it runs on.
    pub closed spec fn day_table(&self) -> Seq<(i64, DaysOfWeek)> {
        self.departure_days@
    }

    pub closed spec fn spec_first(&self) -> Option<i64> {
        self.first_departure
    }

    pub closed spec fn spec_last(&self) -> Option<i64> {
        self.last_departure
    }

    pub closed spec fn spec_frequency(&self) -> Option<i64> {
        self.frequency
    }

    pub closed spec fn spec_days(&self) -> DaysOfWeek {
        self.days_of_week
    }

    /// Well-formedness: the day table has unique times within one day of midnight.
    pub closed spec fn wf(&self) -> bool {
        keys_unique(self.departure_days@) && keys_in_day(self.departure_days@)
    }

    /// An empty schedule.
    pub fn new() -> (r: Self)
        ensures
            r.wf(),
            r.raw().len() == 0,
            r.times().len() == 0,
            r.day_table().len() == 0,
            r.spec_first() is None,
            r.spec_last() is None,
            r.spec_frequency() is None,
            r.spec_days().spec_bits() == 0,
    {
        DirectionSchedule {
            raw_departures: Vec::new(),
            departures: Vec::new(),
            departure_days: Vec::new(),
            first_departure: None,
            last_departure: None,
            frequency: None,
            days_of_week: DaysOfWeek::empty(),
        }
    }

    /// Record a departure.
    pub fn add_departure(&mut self, time: i64)
        ensures
            final(self).raw() == old(self).raw().push(time),
            final(self).day_table() == old(self).day_table(),
            final(self).times() == old(self).times(),
            final(self).wf() == old(self).wf(),
            final(self).spec_first() == old(self).spec_first(),
            final(self).spec_last() == old(self).spec_last(),
            final(self).spec_frequency() == old(self).spec_frequency(),
            final(self).spec_days() == old(self).spec_days(),
    {
        self.raw_departures.push(time);
    }

    pub fn departures(&self) -> (r: &Vec<i64>)
        ensures
            r@ == self.times(),
    {
        &self.departures
    }

    pub fn first_departure(&self) -> (r: Option<i64>)
        ensures
            r == self.spec_first(),
    {
        self.first_departure
    }

    pub fn last_departure(&self) -> (r: Option<i64>)
        ensures
            r == self.spec_last(),
    {
        self.last_departure
    }

    pub fn frequency(&self) -> (r: Option<i64>)
        ensures
            r == self.spec_frequency(),
    {
        self.frequency
    }

    pub fn days_of_week(&self) -> (r: DaysOfWeek)
        ensures
            r == self.spec_days(),
    {
        self.days_of_week
    }

    /// Position of time `t` in the day table.
    fn find_time(&self, t: i64) -> (r: Option<usize>)
        ensures
            r matches Some(p) ==> p < self.departure_days@.len() && self.departure_days@[p as int].0 == t,
            r is None ==> !has_key(self.departure_days@, t),
    {
        let mut p: usize = 0;
        while p < self.departure_days.len()
            invariant
                p <= self.departure_days@.len(),
                forall|q: int| 0 <= q < p ==> (#[trigger] self.departure_days@[q]).0 != t,
            decreases self.departure_days.len() - p,
        {
            if self.departure_days[p].0 == t {
                return Some(p);
            }
            p = p + 1;
        }
        None
    }

    /// Get the days of week for a specific departure time (all days when unknown).
    pub fn get_days_for_departure(&self, time_of_day: i64) -> (r: DaysOfWeek)
        requires
            self.wf(),
        ensures
            has_key(self.day_table(), time_of_day) ==> forall|e: int| 0 <= e < 7 ==>
                (r.has_day(e) <==> day_listed(self.day_table(), time_of_day, e)),
            !has_key(self.day_table(), time_of_day) ==> r.spec_bits() == 0x7f,
    {
        match self.find_time(time_of_day) {
            Some(p) => {
                let d = self.departure_days[p].1;
                proof {
                    assert forall|e: int| 0 <= e < 7 implies
                        (d.has_day(e) <==> day_listed(self.day_table(), time_of_day, e)) by {
                        if day_listed(self.day_table(), time_of_day, e) {
                            let q = choose|q: int| 0 <= q < self.departure_days@.len()
                                && (#[trigger] self.departure_days@[q]).0 == time_of_day
                                && self.departure_days@[q].1.has_day(e);
                            assert(q == p);
                        }
                    }
                }
                d
            },
            None => DaysOfWeek::default(),
        }
    }
}

/// Day index and time of day of a departure, when it is counted.
fn split_departure(raw: i64) -> (r: Option<(usize, i64)>)
    ensures
        r is Some <==> counted(raw),
        r matches Some(p) ==> p.0 == day_index(raw) && p.1 == time_of_day(raw) && p.0 < 7
            && -86400 < p.1 < 86400,
{
    if raw >= 0 {
        let d = raw / 86400;
        if d < 7 {
            proof {
                vstd::arithmetic::div_mod::lemma_fundamental_div_mod(raw as int, 86400);
            }
            Some((d as usize, raw % 86400))
        } else {
            None
        }
    } else if raw > -86400 {
        assert(day_index(raw) == 0) by {
            assert((-raw) / 86400 == 0) by (nonlinear_arith)
                requires 0 < -raw < 86400;
        }
        Some((0, raw))
    } else {
        assert(day_index(raw) < 0) by {
            assert((-raw) / 86400 >= 1) by (nonlinear_arith)
                requires -raw >= 86400;
        }
        None
    }
}

impl DirectionSchedule {
    /// Add day `day` to time `t` in the day table.
    fn record_day(&mut self, t: i64, day: usize)
        requires
            old(self).wf(),
            day < 7,
            -86400 < t < 86400,
        ensures
            final(self).wf(),
            final(self).raw_departures@ == old(self).raw_departures@,
            forall|u: i64| has_key(final(self).day_table(), u) <==> has_key(old(self).day_table(), u) || u == t,
            forall|u: i64, e: int| day_listed(final(self).day_table(), u, e) <==>
                day_listed(old(self).day_table(), u, e) || (u == t && e == day),
    {
        let flag = match DaysOfWeek::from_index(day) {
            Some(f) => f,
            None => DaysOfWeek::empty(),
        };
        let ghost old_dd = self.departure_days@;
        match self.find_time(t) {
            Some(p) => {
                let (k, d) = self.departure_days[p];
                let nd = d.union(flag);
                self.departure_days.set(p, (k, nd));
                proof {
                    let dd = self.departure_days@;
                    assert forall|u: i64| has_key(dd, u) <==> has_key(old_dd, u) || u == t by {
                        if has_key(old_dd, u) {
                            let q = choose|q: int| 0 <= q < old_dd.len() && (#[trigger] old_dd[q]).0 == u;
                            assert(dd[q].0 == u);
                        }
                        if has_key(dd, u) {
                            let q = choose|q: int| 0 <= q < dd.len() && (#[trigger] dd[q]).0 == u;
                            assert(old_dd[q].0 == u);
                        }
                        if u == t {
                            assert(dd[p as int].0 == u);
                        }
                    }
                    assert forall|u: i64, e: int| day_listed(dd, u, e) <==>
                        day_listed(old_dd, u, e) || (u == t && e == day) by {
                        lemma_union_has_day(d, flag, nd, e);
                        lemma_single_has_day(flag, day as int, e);
                        if day_listed(old_dd, u, e) {
                            let q = choose|q: int| 0 <= q < old_dd.len() && (#[trigger] old_dd[q]).0 == u
                                && old_dd[q].1.has_day(e);
                            assert(dd[q].0 == u && dd[q].1.has_day(e));
                        }
                        if u == t && e == day {
                            assert(dd[p as int].0 == u && dd[p as int].1.has_day(e));
                        }
                        if day_listed(dd, u, e) {
                            let q = choose|q: int| 0 <= q < dd.len() && (#[trigger] dd[q]).0 == u
                                && dd[q].1.has_day(e);
                            if q != p {
                                assert(old_dd[q].0 == u && old_dd[q].1.has_day(e));
                            } else if !(u == t && e == day) {
                                assert(old_dd[q].0 == u && old_dd[q].1.has_day(e));
                            }
                        }
                    }
                    assert(keys_unique(dd)) by {
                        assert forall|a: int, b: int| 0 <= a < dd.len() && 0 <= b < dd.len() && a != b
                            implies (#[trigger] dd[a]).0 != (#[trigger] dd[b]).0 by {
                            assert(dd[a].0 == old_dd[a].0 && dd[b].0 == old_dd[b].0);
                        }
                    }
                    assert(keys_in_day(dd)) by {
                        assert forall|a: int| 0 <= a < dd.len() implies -86400 < (#[trigger] dd[a]).0 < 86400 by {
                            assert(dd[a].0 == old_dd[a].0);
                        }
                    }
                }
            },
            None => {
                self.departure_days.push((t, flag));
                proof {
                    let dd = self.departure_days@;
                    let n = old_dd.len() as int;
                    assert forall|u: i64| has_key(dd, u) <==> has_key(old_dd, u) || u == t by {
                        if has_key(old_dd, u) {
                            let q = choose|q: int| 0 <= q < old_dd.len() && (#[trigger] old_dd[q]).0 == u;
                            assert(dd[q].0 == u);
                        }
                        if has_key(dd, u) {
                            let q = choose|q: int| 0 <= q < dd.len() && (#[trigger] dd[q]).0 == u;
                            if q < n {
                                assert(old_dd[q].0 == u);
                            }
                        }
                        if u == t {
                            assert(dd[n].0 == u);
                        }
                    }
                    assert forall|u: i64, e: int| day_listed(dd, u, e) <==>
                        day_listed(old_dd, u, e) || (u == t && e == day) by {
                        lemma_single_has_day(flag, day as int, e);
                        if day_listed(old_dd, u, e) {
                            let q = choose|q: int| 0 <= q < old_dd.len() && (#[trigger] old_dd[q]).0 == u
                                && old_dd[q].1.has_day(e);
                            assert(dd[q].0 == u && dd[q].1.has_day(e));
                        }
                        if u == t && e == day {
                            assert(dd[n].0 == u && dd[n].1.has_day(e));
                        }
                        if day_listed(dd, u, e) {
                            let q = choose|q: int| 0 <= q < dd.len() && (#[trigger] dd[q]).0 == u
                                && dd[q].1.has_day(e);
                            if q < n {
                                assert(old_dd[q].0 == u && old_dd[q].1.has_day(e));
                            }
                        }
                    }
                    assert(keys_unique(dd)) by {
                        assert forall|a: int, b: int| 0 <= a < dd.len() && 0 <= b < dd.len() && a != b
                            implies (#[trigger] dd[a]).0 != (#[trigger] dd[b]).0 by {
                            if a < n && b < n {
                                assert(dd[a].0 == old_dd[a].0 && dd[b].0 == old_dd[b].0);
                            } else if a < n {
                                assert(dd[a].0 == old_dd[a].0);
                                assert(old_dd[a].0 != t);
                            } else if b < n {
                                assert(dd[b].0 == old_dd[b].0);
                                assert(old_dd[b].0 != t);
                            }
                        }
                    }
                    assert(keys_in_day(dd)) by {
                        assert forall|a: int| 0 <= a < dd.len() implies -86400 < (#[trigger] dd[a]).0 < 86400 by {
                            if a < n {
                                assert(dd[a].0 == old_dd[a].0);
                            }
                        }
                    }
                }
            },
        }
    }
}

impl DirectionSchedule {
    /// Build the day table from the raw departures, then the sorted unique
    /// times of day, the frequency, the first and last departure and the days
    /// the schedule runs on.
    #[verifier::spinoff_prover]
    pub fn finalize(&mut self)
        requires
            old(self).wf(),
        ensures
            final(self).wf(),
            final(self).raw() == old(self).raw(),
            old(self).raw().len() == 0 ==> *final(self) == *old(self),
            old(self).raw().len() > 0 ==> {
                &&& forall|t: i64| has_key(final(self).day_table(), t)
                    <==> has_key(old(self).day_table(), t) || raw_has_time(old(self).raw(), t)
                &&& forall|t: i64, e: int| day_listed(final(self).day_table(), t, e)
                    <==> day_listed(old(self).day_table(), t, e) || raw_gives(old(self).raw(), t, e)
                &&& strictly_increasing(final(self).times())
                &&& forall|t: i64| final(self).times().contains(t) <==> has_key(final(self).day_table(), t)
                &&& final(self).spec_frequency() == frequency_of_sorted(final(self).times())
                &&& final(self).spec_first() == first_departure_spec(final(self).times(), final(self).spec_frequency())
                &&& final(self).spec_last() == (if final(self).times().len() == 0 { None } else { Some(final(self).times().last()) })
                &&& forall|e: int| final(self).spec_days().has_day(e)
                    <==> exists|t: i64| day_listed(final(self).day_table(), t, e)
            },
    {
        if self.raw_departures.len() == 0 {
            return;
        }
        let ghost old_dd = self.departure_days@;
        let ghost raw = self.raw_departures@;
        let mut i: usize = 0;
        while i < self.raw_departures.len()
            invariant
                self.wf(),
                self.raw_departures@ == raw,
                i <= raw.len(),
                forall|u: i64| has_key(self.departure_days@, u)
                    <==> has_key(old_dd, u) || raw_has_time(raw.subrange(0, i as int), u),
                forall|u: i64, e: int| day_listed(self.departure_days@, u, e)
                    <==> day_listed(old_dd, u, e) || raw_gives(raw.subrange(0, i as int), u, e),
            decreases raw.len() - i,
        {
            let raw_time = self.raw_departures[i];
            let ghost pre = raw.subrange(0, i as int);
            let ghost post = raw.subrange(0, i + 1);
            proof {
                assert forall|u: i64| raw_has_time(post, u) <==> raw_has_time(pre, u)
                    || (counted(raw[i as int]) && time_of_day(raw[i as int]) == u) by {
                    if raw_has_time(pre, u) {
                        let k = choose|k: int| 0 <= k < pre.len() && counted(pre[k]) && time_of_day(pre[k]) == u;
                        assert(post[k] == pre[k]);
                    }
                    if raw_has_time(post, u) {
                        let k = choose|k: int| 0 <= k < post.len() && counted(post[k]) && time_of_day(post[k]) == u;
                        if k < i {
                            assert(pre[k] == post[k]);
                        }
                    }
                    if counted(raw[i as int]) && time_of_day(raw[i as int]) == u {
                        assert(post[i as int] == raw[i as int]);
                    }
                }
                assert forall|u: i64, e: int| raw_gives(post, u, e) <==> raw_gives(pre, u, e)
                    || (counted(raw[i as int]) && time_of_day(raw[i as int]) == u && day_index(raw[i as int]) == e) by {
                    if raw_gives(pre, u, e) {
                        let k = choose|k: int| 0 <= k < pre.len() && counted(pre[k]) && time_of_day(pre[k]) == u
                            && day_index(pre[k]) == e;
                        assert(post[k] == pre[k]);
                    }
                    if raw_gives(post, u, e) {
                        let k = choose|k: int| 0 <= k < post.len() && counted(post[k]) && time_of_day(post[k]) == u
                            && day_index(post[k]) == e;
                        if k < i {
                            assert(pre[k] == post[k]);
                        }
                    }
                    if counted(raw[i as int]) && time_of_day(raw[i as int]) == u && day_index(raw[i as int]) == e {
                        assert(post[i as int] == raw[i as int]);
                    }
                }
            }
            let ghost before_dd = self.departure_days@;
            let ghost before = *self;
            match split_departure(raw_time) {
                Some((day, tod)) => {
                    self.record_day(tod, day);
                    proof {
                        assert forall|u: i64| has_key(self.departure_days@, u)
                            <==> has_key(old_dd, u) || raw_has_time(post, u) by {
                            assert(has_key(self.day_table(), u) <==> has_key(before.day_table(), u) || u == tod);
                        }
                        assert forall|u: i64, e: int| day_listed(self.departure_days@, u, e)
                            <==> day_listed(old_dd, u, e) || raw_gives(post, u, e) by {
                            assert(day_listed(self.day_table(), u, e) <==> day_listed(before.day_table(), u, e)
                                || (u == tod && e == day));
                        }
                    }
                },
                None => {
                    proof {
                        assert(raw_time == raw[i as int]);
                        assert(!counted(raw[i as int]));
                        assert forall|u: i64| has_key(self.departure_days@, u)
                            <==> has_key(old_dd, u) || raw_has_time(post, u) by {
                            assert(has_key(self.departure_days@, u) == has_key(before_dd, u));
                            assert(has_key(before_dd, u) <==> has_key(old_dd, u) || raw_has_time(pre, u));
                            assert(raw_has_time(post, u) <==> raw_has_time(pre, u));
                        }
                        assert forall|u: i64, e: int| day_listed(self.departure_days@, u, e)
                            <==> day_listed(old_dd, u, e) || raw_gives(post, u, e) by {
                            assert(day_listed(self.departure_days@, u, e) == day_listed(before_dd, u, e));
                            assert(day_listed(before_dd, u, e) <==> day_listed(old_dd, u, e) || raw_gives(pre, u, e));
                            assert(raw_gives(post, u, e) <==> raw_gives(pre, u, e));
                        }
                    }
                },
            }
            i = i + 1;
        }
        assert(raw.subrange(0, i as int) =~= raw);
        let ghost dd = self.departure_days@;

        // Unique times of day, in increasing order.
        let mut keys: Vec<i64> = Vec::new();
        let mut j: usize = 0;
        while j < self.departure_days.len()
            invariant
                dd == self.departure_days@,
                j <= dd.len(),
                keys@ == dd.subrange(0, j as int).map_values(|x: (i64, DaysOfWeek)| x.0),
            decreases self.departure_days.len() - j,
        {
            keys.push(self.departure_days[j].0);
            j = j + 1;
            assert(keys@ =~= dd.subrange(0, j as int).map_values(|x: (i64, DaysOfWeek)| x.0));
        }
        assert(dd.subrange(0, j as int) =~= dd);
        let normalized = sort_i64(&keys);
        proof {
            let ks = keys@;
            let t = normalized@;
            assert(ks.no_duplicates()) by {
                assert forall|a: int, b: int| 0 <= a < ks.len() && 0 <= b < ks.len() && a != b
                    implies ks[a] != ks[b] by {
                    assert(ks[a] == dd[a].0 && ks[b] == dd[b].0);
                }
            }
            ks.lemma_multiset_has_no_duplicates();
            ks.to_multiset_ensures();
            t.to_multiset_ensures();
            assert forall|x: i64| t.to_multiset().count(x) <= 1 by {}
            t.lemma_multiset_has_no_duplicates_conv();
            assert(strictly_increasing(t)) by {
                assert forall|a: int, b: int| 0 <= a < b < t.len() implies t[a] < t[b] by {
                    assert(t[a] <= t[b]);
                }
            }
            assert forall|x: i64| t.contains(x) <==> has_key(dd, x) by {
                assert(t.contains(x) <==> t.to_multiset().count(x) > 0);
                assert(ks.contains(x) <==> ks.to_multiset().count(x) > 0);
                if ks.contains(x) {
                    let a = choose|a: int| 0 <= a < ks.len() && ks[a] == x;
                    assert(dd[a].0 == x);
                }
                if has_key(dd, x) {
                    let a = choose|a: int| 0 <= a < dd.len() && (#[trigger] dd[a]).0 == x;
                    assert(ks[a] == x);
                }
            }
            assert(differences_fit(t)) by {
                assert forall|a: int, b: int| 0 <= a < t.len() && 0 <= b < t.len()
                    implies i64::MIN <= #[trigger] t[a] - #[trigger] t[b] <= i64::MAX by {
                    assert(t.contains(t[a]) && t.contains(t[b]));
                    let pa = choose|p: int| 0 <= p < dd.len() && (#[trigger] dd[p]).0 == t[a];
                    let pb = choose|p: int| 0 <= p < dd.len() && (#[trigger] dd[p]).0 == t[b];
                }
            }
        }
        let frequency = detect_frequency(&normalized);
        let first = match frequency {
            Some(f) => find_best_first_departure(&normalized, f),
            None => if normalized.len() > 0 { Some(normalized[0]) } else { None },
        };
        let last = if normalized.len() > 0 { Some(normalized[normalized.len() - 1]) } else { None };

        // Days of the week the schedule runs on: the union over all times.
        let mut days = DaysOfWeek::empty();
        proof {
            assert forall|e: int| !days.has_day(e) by {
                lemma_empty_has_no_day(days, e);
            }
        }
        let mut q: usize = 0;
        while q < self.departure_days.len()
            invariant
                dd == self.departure_days@,
                q <= dd.len(),
                forall|e: int| days.has_day(e) <==> exists|p: int| 0 <= p < q && (#[trigger] dd[p]).1.has_day(e),
            decreases self.departure_days.len() - q,
        {
            let v = self.departure_days[q].1;
            let nd = days.union(v);
            proof {
                assert forall|e: int| nd.has_day(e) <==> exists|p: int| 0 <= p < q + 1 && (#[trigger] dd[p]).1.has_day(e) by {
                    lemma_union_has_day(days, v, nd, e);
                    if exists|p: int| 0 <= p < q + 1 && (#[trigger] dd[p]).1.has_day(e) {
                        let p = choose|p: int| 0 <= p < q + 1 && (#[trigger] dd[p]).1.has_day(e);
                        if p < q {
                            assert(exists|p2: int| 0 <= p2 < q && (#[trigger] dd[p2]).1.has_day(e));
                        }
                    }
                    if days.has_day(e) {
                        let p = choose|p: int| 0 <= p < q && (#[trigger] dd[p]).1.has_day(e);
                        assert(0 <= p < q + 1);
                    }
                    if v.has_day(e) {
                        assert(dd[q as int].1.has_day(e));
                    }
                }
            }
            days = nd;
            q = q + 1;
        }
        proof {
            assert forall|e: int| days.has_day(e) <==> exists|t: i64| day_listed(dd, t, e) by {
                if days.has_day(e) {
                    let p = choose|p: int| 0 <= p < q && (#[trigger] dd[p]).1.has_day(e);
                    assert(day_listed(dd, dd[p].0, e));
                }
                if exists|t: i64| day_listed(dd, t, e) {
                    let t = choose|t: i64| day_listed(dd, t, e);
                    let p = choose|p: int| 0 <= p < dd.len() && (#[trigger] dd[p]).0 == t && dd[p].1.has_day(e);
                    assert(exists|p2: int| 0 <= p2 < q && (#[trigger] dd[p2]).1.has_day(e));
                }
            }
        }
        self.frequency = frequency;
        self.first_departure = first;
        self.last_departure = last;
        self.days_of_week = days;
        self.departures = normalized;
        proof {
            assert(self.day_table() == dd);
            assert(old(self).day_table() == old_dd);
            assert(old(self).raw() == raw);
            assert forall|t: i64| has_key(self.day_table(), t)
                <==> has_key(old(self).day_table(), t) || raw_has_time(old(self).raw(), t) by {
                assert(has_key(dd, t) <==> has_key(old_dd, t) || raw_has_time(raw.subrange(0, raw.len() as int), t));
            }
            assert forall|t: i64, e: int| day_listed(self.day_table(), t, e)
                <==> day_listed(old(self).day_table(), t, e) || raw_gives(old(self).raw(), t, e) by {
                assert(day_listed(dd, t, e) <==> day_listed(old_dd, t, e) || raw_gives(raw.subrange(0, raw.len() as int), t, e));
            }
            assert(strictly_increasing(self.times()));
            assert forall|t: i64| self.times().contains(t) <==> has_key(self.day_table(), t) by {}
            assert(self.spec_frequency() == frequency_of_sorted(self.times()));
            assert(self.spec_first() == first_departure_spec(self.times(), self.spec_frequency()));
            assert(self.spec_last() == (if self.times().len() == 0 { None } else { Some(self.times().last()) }));
            assert forall|e: int| self.spec_days().has_day(e)
                <==> exists|t: i64| day_listed(self.day_table(), t, e) by {}
        }
    }
}

/// A time of day strictly within one day of midnight.
pub open spec fn in_day(t: i64) -> bool {
    -86400 < t < 86400
}

/// Every time of the schedule, and its first and last departure, lie within
/// one day of midnight.
pub open spec fn schedule_in_day(s: DirectionSchedule) -> bool {
    &&& forall|i: int| 0 <= i < s.times().len() ==> in_day(#[trigger] s.times()[i])
    &&& (s.spec_first() matches Some(f) ==> in_day(f))
    &&& (s.spec_last() matches Some(l) ==> in_day(l))
}

proof fn lemma_best_base_member(d: Seq<i64>, frequency: int, n: int)
    requires
        d.len() > 0,
        0 <= n <= d.len(),
    ensures
        d.contains(best_base_upto(d, frequency, n).0),
    decreases n,
{
    if n <= 0 {
        assert(d[0] == best_base_upto(d, frequency, n).0);
    } else {
        lemma_best_base_member(d, frequency, n - 1);
        let prev = best_base_upto(d, frequency, n - 1);
        let c = pattern_matches(d, d[n - 1] as int, frequency);
        if c > prev.1 {
            assert(d[n - 1] == best_base_upto(d, frequency, n).0);
        }
    }
}

/// A schedule as `finalize` leaves it lies within one day of midnight.
pub proof fn lemma_finalized_in_day(s: DirectionSchedule)
    requires
        s.wf(),
        forall|t: i64| s.times().contains(t) <==> has_key(s.day_table(), t),
        s.spec_first() == first_departure_spec(s.times(), s.spec_frequency()),
        s.spec_last() == (if s.times().len() == 0 { None } else { Some(s.times().last()) }),
    ensures
        schedule_in_day(s),
{
    let t = s.times();
    let dd = s.day_table();
    assert forall|i: int| 0 <= i < t.len() implies in_day(#[trigger] t[i]) by {
        assert(t.contains(t[i]));
        let p = choose|p: int| 0 <= p < dd.len() && (#[trigger] dd[p]).0 == t[i];
        assert(keys_in_day(dd));
    }
    if t.len() > 0 {
        assert(in_day(t[t.len() - 1]));
        match s.spec_frequency() {
            Some(f) => {
                if t.len() > 1 {
                    lemma_best_base_member(t, f as int, t.len() as int);
                    let k = choose|k: int| 0 <= k < t.len() && t[k] == best_base_upto(t, f as int, t.len() as int).0;
                    assert(in_day(t[k]));
                } else {
                    assert(in_day(t[0]));
                }
            },
            None => {
                assert(in_day(t[0]));
            },
        }
    }
}

} // verus!
