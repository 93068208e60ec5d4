//! jTrainGraph timetables: the document's data model, and how trains are
//! reduced to stop patterns (which stations they stop at, how long each hop
//! takes, which platforms they use) so that trains with the same pattern can
//! share one line.

use vstd::prelude::*;
use crate::text::{chars_of, str_eq, decimal_spec, push_decimal};
use crate::track::{Track, first_allowed_from, find_compatible_track, tracks_view, compatible_track};
use crate::parsing::{parse_time_spec, parse_time_seconds};

verus! {

/// A jTrainGraph timetable document.
pub struct JTrainGraphTimetable {
    pub version: String,
    pub name: String,
    pub t_min: String,
    pub t_max: String,
    pub days: String,
    pub bg_color: String,
    pub station_font: String,
    pub train_font: String,
    pub header_font: String,
    pub time_font: String,
    pub stations_horizontal: bool,
    pub station_line: String,
    pub show_km: bool,
    pub start_station: String,
    pub end_station: String,
    pub column_number: String,
    pub extra_width: String,
    pub hour_pixel_height: String,
    pub show_vertical: String,
    pub show_time: bool,
    pub show_color: bool,
    pub highlight_interval: String,
    pub highlight_color: String,
    pub print: bool,
    pub print_columns: String,
    pub min_print_pause: String,
    pub round_time: bool,
    pub show_multi: bool,
    pub default_travel_time: String,
    pub override_default_brake_time: String,
    pub is_tv: bool,
    pub stations: JTrainGraphStations,
    pub trains: JTrainGraphTrains,
}

/// The station list of a timetable.
pub struct JTrainGraphStations {
    pub stations: Vec<JTrainGraphStation>,
}

/// A station of a timetable.
pub struct JTrainGraphStation {
    pub name: String,
    pub km_left: String,
    pub km_right: String,
    pub color: String,
    pub show: bool,
    pub size: String,
    pub symbol: String,
    pub show_route_in: bool,
    pub show_route_all: bool,
    pub tracks: String,
    pub default_platform_in: String,
    pub default_platform_away: String,
    pub platforms: Vec<JTrainGraphPlatform>,
}

/// A platform (track) of a station.
pub struct JTrainGraphPlatform {
    pub name: String,
}

/// The trains of a timetable, by direction.
pub struct JTrainGraphTrains {
    pub trains_in: Vec<JTrainGraphTrainInfo>,
    pub trains_away: Vec<JTrainGraphTrainInfo>,
}

/// A train: its name and attributes, and one time entry per station.
pub struct JTrainGraphTrainInfo {
    pub name: String,
    pub comment: String,
    pub color: String,
    pub show: bool,
    pub size: String,
    pub symbol: String,
    pub days: String,
    pub id: String,
    pub times: Vec<JTrainGraphTrainTime>,
}

/// A train's times and tracks at one station (empty strings where absent).
pub struct JTrainGraphTrainTime {
    pub arrival: String,
    pub departure: String,
    pub arrival_track: String,
    pub departure_track: String,
}

/// A clock time of the file (`HH:MM` or `HH:MM:SS`) as seconds since midnight;
/// `None` for an empty or malformed time.
pub fn parse_time(time_str: &str) -> (r: Option<u32>)
    ensures
        match parse_time_spec(time_str@) {
            Some(v) => r == Some(v as u32),
            None => r is None,
        },
{
    let cs = chars_of(time_str);
    parse_time_seconds(cs.as_slice())
}

/// A train stops at a station when it has an arrival or a departure time there.
pub open spec fn is_stop(t: JTrainGraphTrainTime) -> bool {
    t.arrival@.len() > 0 || t.departure@.len() > 0
}

/// Indices of the stops among the first `n` time entries, in order.
pub open spec fn stops_upto(times: Seq<JTrainGraphTrainTime>, n: int) -> Seq<usize>
    decreases n,
{
    if n <= 0 {
        Seq::empty()
    } else {
        let rest = stops_upto(times, n - 1);
        if is_stop(times[n - 1]) {
            rest.push((n - 1) as usize)
        } else {
            rest
        }
    }
}

/// Seconds from `from` to `to` on a 24-hour clock, crossing midnight when `to` is earlier.
pub open spec fn clock_gap(from: int, to: int) -> int {
    if to >= from {
        to - from
    } else {
        86400 - from + to
    }
}

/// Travel time of the hop from entry `from` to entry `to`: departure at `from`
/// to arrival at `to` (its departure when it has no arrival).
pub open spec fn hop_duration(times: Seq<JTrainGraphTrainTime>, from: int, to: int) -> Option<int> {
    let arr_str = if times[to].arrival@.len() == 0 { times[to].departure@ } else { times[to].arrival@ };
    match (parse_time_spec(times[from].departure@), parse_time_spec(arr_str)) {
        (Some(d), Some(a)) => Some(clock_gap(d as int, a as int)),
        _ => None,
    }
}

/// The `j`-th hop between consecutive stops: forward from the first stop on,
/// for a return train backward from the last stop.
pub open spec fn hop(stops: Seq<usize>, j: int, is_return: bool) -> (int, int) {
    let m = stops.len() as int;
    if is_return {
        (stops[m - 1 - j] as int, stops[m - 2 - j] as int)
    } else {
        (stops[j] as int, stops[j + 1] as int)
    }
}

/// Arrival and departure track names at a stop, swapped for a return train.
pub open spec fn stop_platforms(t: JTrainGraphTrainTime, is_return: bool) -> (Seq<char>, Seq<char>) {
    if is_return {
        (t.departure_track@, t.arrival_track@)
    } else {
        (t.arrival_track@, t.departure_track@)
    }
}

/// A stop pattern groups trains: stations where the train stops, the
/// duration between consecutive stops (seconds), and the platform names at
/// each stop (arrival track, departure track).
#[derive(Debug, Clone, PartialEq, Eq, Hash)]
pub struct StopPattern {
    pub station_indices: Vec<usize>,
    pub durations: Vec<i64>,
    pub platforms: Vec<(String, String)>,
}

/// Abstract value of a stop pattern.
pub type StopPatternView = (Seq<usize>, Seq<i64>, Seq<(Seq<char>, Seq<char>)>);

/// Views of platform name pairs.
pub open spec fn pair_views(ps: Seq<(String, String)>) -> Seq<(Seq<char>, Seq<char>)> {
    ps.map_values(|p: (String, String)| (p.0@, p.1@))
}

impl View for StopPattern {
    type V = StopPatternView;

    open spec fn view(&self) -> StopPatternView {
        (self.station_indices@, self.durations@, pair_views(self.platforms@))
    }
}

/// The stop pattern of a train, if it has one: at least two stops, and a
/// parsable departure and arrival for every hop.
pub open spec fn stop_pattern_spec(times: Seq<JTrainGraphTrainTime>, is_return: bool) -> Option<StopPatternView> {
    let stops = stops_upto(times, times.len() as int);
    let m = stops.len() as int;
    if m >= 2 && forall|j: int| 0 <= j < m - 1 ==> #[trigger] hop_duration(
        times,
        hop(stops, j, is_return).0,
        hop(stops, j, is_return).1,
    ) is Some {
        Some(
            (
                stops,
                Seq::new(
                    (m - 1) as nat,
                    |j: int| hop_duration(times, hop(stops, j, is_return).0, hop(stops, j, is_return).1)->0 as i64,
                ),
                Seq::new(m as nat, |k: int| stop_platforms(times[stops[k] as int], is_return)),
            ),
        )
    } else {
        None
    }
}

proof fn lemma_stops_bounded(times: Seq<JTrainGraphTrainTime>, n: int)
    requires
        0 <= n <= times.len(),
        times.len() <= usize::MAX,
    ensures
        stops_upto(times, n).len() <= n,
        forall|k: int| 0 <= k < stops_upto(times, n).len() ==> #[trigger] stops_upto(times, n)[k] < n,
        forall|a: int, b: int| 0 <= a < b < stops_upto(times, n).len() ==> #[trigger] stops_upto(times, n)[a]
            < #[trigger] stops_upto(times, n)[b],
    decreases n,
{
    if n > 0 {
        lemma_stops_bounded(times, n - 1);
        let r = stops_upto(times, n - 1);
        if is_stop(times[n - 1]) {
            let s = r.push((n - 1) as usize);
            assert forall|a: int, b: int| 0 <= a < b < s.len() implies #[trigger] s[a] < #[trigger] s[b] by {
                if b < r.len() {
                    assert(s[a] == r[a] && s[b] == r[b]);
                } else {
                    assert(s[a] == r[a]);
                    assert(r[a] < n - 1);
                }
            }
        }
    }
}

fn clock_gap_exec(from: u32, to: u32) -> (r: i64)
    requires
        from < 86400,
        to < 86400,
    ensures
        r == clock_gap(from as int, to as int),
{
    let f = from as i64;
    let t = to as i64;
    if t >= f {
        t - f
    } else {
        86400 - f + t
    }
}

fn hop_duration_exec(times: &Vec<JTrainGraphTrainTime>, from: usize, to: usize) -> (r: Option<i64>)
    requires
        from < times@.len(),
        to < times@.len(),
    ensures
        match hop_duration(times@, from as int, to as int) {
            Some(v) => r == Some(v as i64),
            None => r is None,
        },
{
    let dep = match parse_time(times[from].departure.as_str()) {
        Some(d) => d,
        None => {
            return None;
        },
    };
    let to_time = &times[to];
    let arr_str = if to_time.arrival.unicode_len() == 0 { to_time.departure.as_str() } else { to_time.arrival.as_str() };
    let arr = match parse_time(arr_str) {
        Some(a) => a,
        None => {
            return None;
        },
    };
    Some(clock_gap_exec(dep, arr))
}

/// Extract the stop pattern of a train (stops, durations, platforms). For a
/// return train the stations keep their order, the arrival and departure
/// tracks are swapped and the hops run from the last stop back to the first.
pub fn get_stop_pattern(train: &JTrainGraphTrainInfo, is_return: bool) -> (r: Option<StopPattern>)
    ensures
        match stop_pattern_spec(train.times@, is_return) {
            Some(v) => r is Some && r->0@ == v,
            None => r is None,
        },
{
    let ghost times = train.times@;
    let mut station_indices: Vec<usize> = Vec::new();
    let mut platforms: Vec<(String, String)> = Vec::new();
    let mut idx: usize = 0;
    while idx < train.times.len()
        invariant
            idx <= times.len(),
            times == train.times@,
            station_indices@ == stops_upto(times, idx as int),
            platforms@.len() == station_indices@.len(),
            forall|k: int| 0 <= k < platforms@.len() ==> (#[trigger] pair_views(platforms@)[k]) == stop_platforms(
                times[station_indices@[k] as int],
                is_return,
            ),
        decreases train.times.len() - idx,
    {
        proof {
            lemma_stops_bounded(times, idx as int);
        }
        let time = &train.times[idx];
        if time.arrival.unicode_len() > 0 || time.departure.unicode_len() > 0 {
            let ghost old_p = platforms@;
            station_indices.push(idx);
            let pair = if is_return {
                (time.departure_track.clone(), time.arrival_track.clone())
            } else {
                (time.arrival_track.clone(), time.departure_track.clone())
            };
            platforms.push(pair);
            proof {
                assert forall|k: int| 0 <= k < platforms@.len() implies (#[trigger] pair_views(platforms@)[k])
                    == stop_platforms(times[station_indices@[k] as int], is_return) by {
                    if k < old_p.len() {
                        assert(pair_views(platforms@)[k] == pair_views(old_p)[k]);
                    }
                }
            }
        }
        idx = idx + 1;
    }
    proof {
        lemma_stops_bounded(times, times.len() as int);
    }
    let m = station_indices.len();
    if m < 2 {
        return None;
    }
    let ghost stops = station_indices@;
    let mut durations: Vec<i64> = Vec::new();
    let mut j: usize = 0;
    while j < m - 1
        invariant
            m == stops.len(),
            m >= 2,
            stops == station_indices@,
            stops == stops_upto(times, times.len() as int),
            times == train.times@,
            forall|k: int| 0 <= k < stops.len() ==> #[trigger] stops[k] < times.len(),
            j <= m - 1,
            durations@.len() == j,
            forall|k: int| 0 <= k < j ==> hop_duration(times, #[trigger] hop(stops, k, is_return).0, hop(stops, k, is_return).1)
                == Some(durations@[k] as int),
        decreases m - 1 - j,
    {
        let (from_idx, to_idx) = if is_return {
            (station_indices[m - 1 - j], station_indices[m - 2 - j])
        } else {
            (station_indices[j], station_indices[j + 1])
        };
        assert(hop(stops, j as int, is_return) == (from_idx as int, to_idx as int));
        match hop_duration_exec(&train.times, from_idx, to_idx) {
            Some(d) => {
                durations.push(d);
            },
            None => {
                return None;
            },
        }
        j = j + 1;
    }
    let r = StopPattern { station_indices, durations, platforms };
    proof {
        let v = stop_pattern_spec(times, is_return);
        assert(forall|k: int| 0 <= k < m - 1 ==> #[trigger] hop_duration(times, hop(stops, k, is_return).0, hop(stops, k, is_return).1) is Some);
        let w = v.unwrap();
        assert(r@.1 =~= w.1);
        assert(r@.2 =~= w.2);
    }
    Some(r)
}

/// Index of the platform named `platform_name`; `None` for an empty name or
/// when no platform has it.
pub fn find_platform_index(platforms: &[JTrainGraphPlatform], platform_name: &str) -> (r: Option<usize>)
    ensures
        platform_name@.len() == 0 ==> r is None,
        platform_name@.len() > 0 ==> match r {
            Some(i) => i < platforms@.len() && platforms@[i as int].name@ == platform_name@ && forall|k: int|
                0 <= k < i ==> (#[trigger] platforms@[k]).name@ != platform_name@,
            None => forall|k: int| 0 <= k < platforms@.len() ==> (#[trigger] platforms@[k]).name@ != platform_name@,
        },
{
    if platform_name.unicode_len() == 0 {
        return None;
    }
    let mut i: usize = 0;
    while i < platforms.len()
        invariant
            i <= platforms@.len(),
            platform_name@.len() > 0,
            forall|k: int| 0 <= k < i ==> (#[trigger] platforms@[k]).name@ != platform_name@,
        decreases platforms.len() - i,
    {
        if str_eq(platforms[i].name.as_str(), platform_name) {
            return Some(i);
        }
        i = i + 1;
    }
    None
}


/// Wait time that the first train of a group spends at entry `to_idx`, when it
/// has both an arrival and a departure time there and both parse.
pub open spec fn wait_at(trains: Seq<&JTrainGraphTrainInfo>, to_idx: int) -> Option<int> {
    if trains.len() == 0 {
        None
    } else {
        let t = trains[0].times@[to_idx];
        if t.arrival@.len() == 0 || t.departure@.len() == 0 {
            None
        } else {
            match (parse_time_spec(t.arrival@), parse_time_spec(t.departure@)) {
                (Some(a), Some(d)) => Some(clock_gap(a as int, d as int)),
                _ => None,
            }
        }
    }
}

/// Record in `wait_time_map` the wait time at station entry `to_idx`, taken
/// from the first train of the group (arrival to departure, across midnight if
/// needed); the map is left alone when that time is not known.
pub fn calculate_wait_time(
    trains: &[&JTrainGraphTrainInfo],
    to_idx: usize,
    wait_time_map: &mut std::collections::HashMap<usize, i64>,
)
    requires
        trains@.len() > 0 ==> to_idx < trains@[0].times@.len(),
    ensures
        match wait_at(trains@, to_idx as int) {
            Some(w) => final(wait_time_map)@ == old(wait_time_map)@.insert(to_idx, w as i64),
            None => final(wait_time_map)@ == old(wait_time_map)@,
        },
{
    broadcast use vstd::std_specs::hash::group_hash_axioms;
    if trains.len() == 0 {
        return;
    }
    let first_train = trains[0];
    let dest_time = &first_train.times[to_idx];
    if dest_time.arrival.unicode_len() == 0 || dest_time.departure.unicode_len() == 0 {
        return;
    }
    let arr = match parse_time(dest_time.arrival.as_str()) {
        Some(a) => a,
        None => {
            return;
        },
    };
    let dep = match parse_time(dest_time.departure.as_str()) {
        Some(d) => d,
        None => {
            return;
        },
    };
    let wait_seconds = clock_gap_exec(arr, dep);
    wait_time_map.insert(to_idx, wait_seconds);
}


/// Three-way comparison result.
#[derive(Debug, Clone, Copy, PartialEq, Eq, Structural)]
pub enum Cmp3 {
    Less,
    Equal,
    Greater,
}

/// Lexicographic order of index sequences (as `Vec<usize>` orders them).
pub open spec fn lex_lt_usize(a: Seq<usize>, b: Seq<usize>) -> bool
    decreases a.len(),
{
    if a.len() == 0 {
        b.len() > 0
    } else if b.len() == 0 {
        false
    } else if a[0] == b[0] {
        lex_lt_usize(a.drop_first(), b.drop_first())
    } else {
        a[0] < b[0]
    }
}

/// Lexicographic order of duration sequences (as `Vec<i64>` orders them).
pub open spec fn lex_lt_i64(a: Seq<i64>, b: Seq<i64>) -> bool
    decreases a.len(),
{
    if a.len() == 0 {
        b.len() > 0
    } else if b.len() == 0 {
        false
    } else if a[0] == b[0] {
        lex_lt_i64(a.drop_first(), b.drop_first())
    } else {
        a[0] < b[0]
    }
}

/// Lexicographic order of strings by character (code point), which is the
/// order of their UTF-8 bytes that `String` uses.
pub open spec fn lex_lt_chars(a: Seq<char>, b: Seq<char>) -> bool
    decreases a.len(),
{
    if a.len() == 0 {
        b.len() > 0
    } else if b.len() == 0 {
        false
    } else if a[0] == b[0] {
        lex_lt_chars(a.drop_first(), b.drop_first())
    } else {
        a[0] < b[0]
    }
}

/// Order of (arrival track, departure track) pairs: by the first, then the second.
pub open spec fn pair_lt(p: (Seq<char>, Seq<char>), q: (Seq<char>, Seq<char>)) -> bool {
    lex_lt_chars(p.0, q.0) || (p.0 == q.0 && lex_lt_chars(p.1, q.1))
}

/// Lexicographic order of platform-pair sequences.
pub open spec fn lex_lt_pairs(a: Seq<(Seq<char>, Seq<char>)>, b: Seq<(Seq<char>, Seq<char>)>) -> bool
    decreases a.len(),
{
    if a.len() == 0 {
        b.len() > 0
    } else if b.len() == 0 {
        false
    } else if a[0] == b[0] {
        lex_lt_pairs(a.drop_first(), b.drop_first())
    } else {
        pair_lt(a[0], b[0])
    }
}

/// Abstract value of a pattern key: the pattern and whether it is a return pattern.
pub type PatternKeyView = (StopPatternView, bool);

/// Order in which pattern groups are listed: by stations, then durations,
/// then platforms, then forward before return.
pub open spec fn key_lt(a: PatternKeyView, b: PatternKeyView) -> bool {
    let (pa, ra) = a;
    let (pb, rb) = b;
    ||| lex_lt_usize(pa.0, pb.0)
    ||| (pa.0 == pb.0 && lex_lt_i64(pa.1, pb.1))
    ||| (pa.0 == pb.0 && pa.1 == pb.1 && lex_lt_pairs(pa.2, pb.2))
    ||| (pa.0 == pb.0 && pa.1 == pb.1 && pa.2 == pb.2 && !ra && rb)
}

fn order_usize_seq(a: &Vec<usize>, b: &Vec<usize>) -> (r: Cmp3)
    ensures
        r == Cmp3::Less <==> lex_lt_usize(a@, b@),
        r == Cmp3::Greater <==> lex_lt_usize(b@, a@),
        r == Cmp3::Equal <==> a@ == b@,
{
    let mut i: usize = 0;
    assert(a@.skip(0) =~= a@);
    assert(b@.skip(0) =~= b@);
    while i < a.len() && i < b.len() && a[i] == b[i]
        invariant
            i <= a@.len(),
            i <= b@.len(),
            a@.take(i as int) == b@.take(i as int),
            lex_lt_usize(a@, b@) == lex_lt_usize(a@.skip(i as int), b@.skip(i as int)),
            lex_lt_usize(b@, a@) == lex_lt_usize(b@.skip(i as int), a@.skip(i as int)),
        decreases a.len() - i,
    {
        assert(a@.skip(i as int).drop_first() =~= a@.skip(i + 1));
        assert(b@.skip(i as int).drop_first() =~= b@.skip(i + 1));
        assert(a@.take(i + 1) =~= a@.take(i as int).push(a@[i as int]));
        assert(b@.take(i + 1) =~= b@.take(i as int).push(b@[i as int]));
        i = i + 1;
    }
    if i == a.len() && i == b.len() {
        assert(a@ =~= a@.take(i as int));
        assert(b@ =~= b@.take(i as int));
        return Cmp3::Equal;
    }
    if i == a.len() {
        assert(a@.len() != b@.len());
        return Cmp3::Less;
    }
    if i == b.len() {
        assert(a@.len() != b@.len());
        return Cmp3::Greater;
    }
    assert(a@[i as int] != b@[i as int]);
    assert(a@ != b@);
    if a[i] < b[i] {
        Cmp3::Less
    } else {
        Cmp3::Greater
    }
}

fn order_i64_seq(a: &Vec<i64>, b: &Vec<i64>) -> (r: Cmp3)
    ensures
        r == Cmp3::Less <==> lex_lt_i64(a@, b@),
        r == Cmp3::Greater <==> lex_lt_i64(b@, a@),
        r == Cmp3::Equal <==> a@ == b@,
{
    let mut i: usize = 0;
    assert(a@.skip(0) =~= a@);
    assert(b@.skip(0) =~= b@);
    while i < a.len() && i < b.len() && a[i] == b[i]
        invariant
            i <= a@.len(),
            i <= b@.len(),
            a@.take(i as int) == b@.take(i as int),
            lex_lt_i64(a@, b@) == lex_lt_i64(a@.skip(i as int), b@.skip(i as int)),
            lex_lt_i64(b@, a@) == lex_lt_i64(b@.skip(i as int), a@.skip(i as int)),
        decreases a.len() - i,
    {
        assert(a@.skip(i as int).drop_first() =~= a@.skip(i + 1));
        assert(b@.skip(i as int).drop_first() =~= b@.skip(i + 1));
        assert(a@.take(i + 1) =~= a@.take(i as int).push(a@[i as int]));
        assert(b@.take(i + 1) =~= b@.take(i as int).push(b@[i as int]));
        i = i + 1;
    }
    if i == a.len() && i == b.len() {
        assert(a@ =~= a@.take(i as int));
        assert(b@ =~= b@.take(i as int));
        return Cmp3::Equal;
    }
    if i == a.len() {
        assert(a@.len() != b@.len());
        return Cmp3::Less;
    }
    if i == b.len() {
        assert(a@.len() != b@.len());
        return Cmp3::Greater;
    }
    assert(a@[i as int] != b@[i as int]);
    assert(a@ != b@);
    if a[i] < b[i] {
        Cmp3::Less
    } else {
        Cmp3::Greater
    }
}

fn order_chars(a: &Vec<char>, b: &Vec<char>) -> (r: Cmp3)
    ensures
        r == Cmp3::Less <==> lex_lt_chars(a@, b@),
        r == Cmp3::Greater <==> lex_lt_chars(b@, a@),
        r == Cmp3::Equal <==> a@ == b@,
{
    let mut i: usize = 0;
    assert(a@.skip(0) =~= a@);
    assert(b@.skip(0) =~= b@);
    while i < a.len() && i < b.len() && a[i] == b[i]
        invariant
            i <= a@.len(),
            i <= b@.len(),
            a@.take(i as int) == b@.take(i as int),
            lex_lt_chars(a@, b@) == lex_lt_chars(a@.skip(i as int), b@.skip(i as int)),
            lex_lt_chars(b@, a@) == lex_lt_chars(b@.skip(i as int), a@.skip(i as int)),
        decreases a.len() - i,
    {
        assert(a@.skip(i as int).drop_first() =~= a@.skip(i + 1));
        assert(b@.skip(i as int).drop_first() =~= b@.skip(i + 1));
        assert(a@.take(i + 1) =~= a@.take(i as int).push(a@[i as int]));
        assert(b@.take(i + 1) =~= b@.take(i as int).push(b@[i as int]));
        i = i + 1;
    }
    if i == a.len() && i == b.len() {
        assert(a@ =~= a@.take(i as int));
        assert(b@ =~= b@.take(i as int));
        return Cmp3::Equal;
    }
    if i == a.len() {
        assert(a@.len() != b@.len());
        return Cmp3::Less;
    }
    if i == b.len() {
        assert(a@.len() != b@.len());
        return Cmp3::Greater;
    }
    assert(a@[i as int] != b@[i as int]);
    assert(a@ != b@);
    if a[i] < b[i] {
        Cmp3::Less
    } else {
        Cmp3::Greater
    }
}

fn order_strings(a: &String, b: &String) -> (r: Cmp3)
    ensures
        r == Cmp3::Less <==> lex_lt_chars(a@, b@),
        r == Cmp3::Greater <==> lex_lt_chars(b@, a@),
        r == Cmp3::Equal <==> a@ == b@,
{
    let ca = chars_of(a.as_str());
    let cb = chars_of(b.as_str());
    order_chars(&ca, &cb)
}

fn order_pair(a: &(String, String), b: &(String, String)) -> (r: Cmp3)
    ensures
        r == Cmp3::Less <==> pair_lt((a.0@, a.1@), (b.0@, b.1@)),
        r == Cmp3::Greater <==> pair_lt((b.0@, b.1@), (a.0@, a.1@)),
        r == Cmp3::Equal <==> (a.0@, a.1@) == (b.0@, b.1@),
{
    match order_strings(&a.0, &b.0) {
        Cmp3::Equal => order_strings(&a.1, &b.1),
        c => c,
    }
}

fn order_pair_seq(a: &Vec<(String, String)>, b: &Vec<(String, String)>) -> (r: Cmp3)
    ensures
        r == Cmp3::Less <==> lex_lt_pairs(pair_views(a@), pair_views(b@)),
        r == Cmp3::Greater <==> lex_lt_pairs(pair_views(b@), pair_views(a@)),
        r == Cmp3::Equal <==> pair_views(a@) == pair_views(b@),
{
    let ghost va = pair_views(a@);
    let ghost vb = pair_views(b@);
    let mut i: usize = 0;
    assert(va.skip(0) =~= va);
    assert(vb.skip(0) =~= vb);
    while i < a.len() && i < b.len()
        invariant
            va == pair_views(a@),
            vb == pair_views(b@),
            i <= a@.len(),
            i <= b@.len(),
            va.take(i as int) == vb.take(i as int),
            lex_lt_pairs(va, vb) == lex_lt_pairs(va.skip(i as int), vb.skip(i as int)),
            lex_lt_pairs(vb, va) == lex_lt_pairs(vb.skip(i as int), va.skip(i as int)),
        decreases a.len() - i,
    {
        assert(va[i as int] == (a@[i as int].0@, a@[i as int].1@));
        assert(vb[i as int] == (b@[i as int].0@, b@[i as int].1@));
        let c = order_pair(&a[i], &b[i]);
        if c != Cmp3::Equal {
            assert(va.skip(i as int)[0] == va[i as int]);
            assert(vb.skip(i as int)[0] == vb[i as int]);
            assert(va[i as int] != vb[i as int]);
            assert(va != vb);
            return c;
        }
        assert(va.skip(i as int).drop_first() =~= va.skip(i + 1));
        assert(vb.skip(i as int).drop_first() =~= vb.skip(i + 1));
        assert(va.take(i + 1) =~= va.take(i as int).push(va[i as int]));
        assert(vb.take(i + 1) =~= vb.take(i as int).push(vb[i as int]));
        i = i + 1;
    }
    if i == a.len() && i == b.len() {
        assert(va =~= va.take(i as int));
        assert(vb =~= vb.take(i as int));
        return Cmp3::Equal;
    }
    if i == a.len() {
        assert(va.len() != vb.len());
        return Cmp3::Less;
    }
    assert(va.len() != vb.len());
    Cmp3::Greater
}

/// Key under which trains are grouped into one line.
#[derive(Debug, Clone, PartialEq, Eq, Hash)]
pub struct PatternKey {
    pub pattern: StopPattern,
    pub is_return: bool,
}

impl View for PatternKey {
    type V = PatternKeyView;

    open spec fn view(&self) -> PatternKeyView {
        (self.pattern@, self.is_return)
    }
}

fn order_keys(a: &PatternKey, b: &PatternKey) -> (r: Cmp3)
    ensures
        r == Cmp3::Less <==> key_lt(a@, b@),
        r == Cmp3::Greater <==> key_lt(b@, a@),
        r == Cmp3::Equal <==> a@ == b@,
{
    let c = order_usize_seq(&a.pattern.station_indices, &b.pattern.station_indices);
    if c != Cmp3::Equal {
        return c;
    }
    let c = order_i64_seq(&a.pattern.durations, &b.pattern.durations);
    if c != Cmp3::Equal {
        return c;
    }
    let c = order_pair_seq(&a.pattern.platforms, &b.pattern.platforms);
    if c != Cmp3::Equal {
        return c;
    }
    if a.is_return == b.is_return {
        Cmp3::Equal
    } else if !a.is_return {
        Cmp3::Less
    } else {
        Cmp3::Greater
    }
}


/// Trains that share a pattern key, by index in their direction's train list.
pub struct PatternGroup {
    pub key: PatternKey,
    pub trains: Vec<usize>,
}

/// Some group has key `kv`.
pub open spec fn has_group(gs: Seq<PatternGroup>, kv: PatternKeyView) -> bool {
    exists|i: int| 0 <= i < gs.len() && (#[trigger] gs[i]).key@ == kv
}

/// The trains of the group with key `kv` (none when there is no such group).
pub open spec fn trains_for(gs: Seq<PatternGroup>, kv: PatternKeyView) -> Seq<usize> {
    if has_group(gs, kv) {
        gs[choose|i: int| 0 <= i < gs.len() && (#[trigger] gs[i]).key@ == kv].trains@
    } else {
        Seq::empty()
    }
}

/// Groups are listed in key order, each key once.
pub open spec fn groups_ordered(gs: Seq<PatternGroup>) -> bool {
    &&& forall|i: int| 0 <= i < gs.len() - 1 ==> key_lt((#[trigger] gs[i]).key@, gs[i + 1].key@)
    &&& forall|i: int, j: int| 0 <= i < gs.len() && 0 <= j < gs.len() && i != j ==> (#[trigger] gs[i]).key@
        != (#[trigger] gs[j]).key@
}

proof fn lemma_trains_for(gs: Seq<PatternGroup>, i: int)
    requires
        groups_ordered(gs),
        0 <= i < gs.len(),
    ensures
        trains_for(gs, gs[i].key@) == gs[i].trains@,
{
    assert(has_group(gs, gs[i].key@));
}

/// Add train `idx` to the group of `key`, creating the group (in key order) if needed.
fn add_to_groups(groups: &mut Vec<PatternGroup>, key: PatternKey, idx: usize)
    requires
        groups_ordered(old(groups)@),
    ensures
        groups_ordered(final(groups)@),
        forall|kv: PatternKeyView| has_group(final(groups)@, kv) <==> (has_group(old(groups)@, kv) || kv == key@),
        forall|kv: PatternKeyView| trains_for(final(groups)@, kv) == if kv == key@ {
            trains_for(old(groups)@, kv).push(idx)
        } else {
            trains_for(old(groups)@, kv)
        },
{
    let ghost old_gs = groups@;
    let mut i: usize = 0;
    while i < groups.len()
        invariant
            groups@ == old_gs,
            old_gs == old(groups)@,
            groups_ordered(old_gs),
            i <= groups@.len(),
            forall|j: int| 0 <= j < i ==> (#[trigger] groups@[j]).key@ != key@,
        decreases groups.len() - i,
    {
        if order_keys(&groups[i].key, &key) == Cmp3::Equal {
            let ghost kv = key@;
            groups[i].trains.push(idx);
            proof {
                let gs = groups@;
                assert(gs.len() == old_gs.len());
                assert forall|j: int| 0 <= j < gs.len() && j != i implies #[trigger] gs[j] == old_gs[j] by {}
                assert(gs[i as int].key@ == kv);
                assert(groups_ordered(gs)) by {
                    assert forall|j: int| 0 <= j < gs.len() implies (#[trigger] gs[j]).key@ == old_gs[j].key@ by {}
                }
                lemma_trains_for(old_gs, i as int);
                lemma_trains_for(gs, i as int);
                assert forall|k: PatternKeyView| has_group(gs, k) <==> (has_group(old_gs, k) || k == kv) by {
                    if has_group(gs, k) {
                        let j = choose|j: int| 0 <= j < gs.len() && (#[trigger] gs[j]).key@ == k;
                        assert(old_gs[j].key@ == k);
                    }
                    if has_group(old_gs, k) {
                        let j = choose|j: int| 0 <= j < old_gs.len() && (#[trigger] old_gs[j]).key@ == k;
                        assert(gs[j].key@ == k);
                    }
                }
                assert forall|k: PatternKeyView| trains_for(gs, k) == if k == kv {
                    trains_for(old_gs, k).push(idx)
                } else {
                    trains_for(old_gs, k)
                } by {
                    if k != kv && has_group(old_gs, k) {
                        let j = choose|j: int| 0 <= j < old_gs.len() && (#[trigger] old_gs[j]).key@ == k;
                        lemma_trains_for(old_gs, j);
                        lemma_trains_for(gs, j);
                    }
                }
                assert(old_gs == old(groups)@);
                assert(kv == key@);
            }
            return;
        }
        i = i + 1;
    }
    let mut q: usize = 0;
    while q < groups.len() && order_keys(&groups[q].key, &key) == Cmp3::Less
        invariant
            groups@ == old_gs,
            old_gs == old(groups)@,
            groups_ordered(old_gs),
            q <= groups@.len(),
            forall|j: int| 0 <= j < groups@.len() ==> (#[trigger] groups@[j]).key@ != key@,
            forall|j: int| 0 <= j < q ==> key_lt((#[trigger] groups@[j]).key@, key@),
        decreases groups.len() - q,
    {
        q = q + 1;
    }
    let ghost after_q = q < groups@.len() ==> key_lt(key@, groups@[q as int].key@);
    if q < groups.len() {
        let c = order_keys(&groups[q].key, &key);
        assert(c != Cmp3::Less);
        assert(c != Cmp3::Equal);
        assert(key_lt(key@, groups@[q as int].key@));
    }
    let ghost kv = key@;
    let mut trains: Vec<usize> = Vec::new();
    trains.push(idx);
    groups.insert(q, PatternGroup { key, trains });
    proof {
        let gs = groups@;
        assert(gs == old_gs.insert(q as int, gs[q as int]));
        assert(gs[q as int].key@ == kv);
        assert(gs[q as int].trains@ == seq![idx]);
        assert forall|j: int| 0 <= j < q implies #[trigger] gs[j] == old_gs[j] by {}
        assert forall|j: int| q < j < gs.len() implies #[trigger] gs[j] == old_gs[j - 1] by {}
        assert(!has_group(old_gs, kv));
        assert(groups_ordered(gs)) by {
            assert forall|j: int| 0 <= j < gs.len() - 1 implies key_lt((#[trigger] gs[j]).key@, gs[j + 1].key@) by {
                if j < q - 1 {
                    assert(gs[j] == old_gs[j] && gs[j + 1] == old_gs[j + 1]);
                } else if j == q - 1 {
                    assert(gs[j] == old_gs[j]);
                } else if j == q {
                    assert(gs[j + 1] == old_gs[j]);
                } else {
                    assert(gs[j] == old_gs[j - 1] && gs[j + 1] == old_gs[j]);
                }
            }
            assert forall|a: int, b: int| 0 <= a < gs.len() && 0 <= b < gs.len() && a != b implies (#[trigger] gs[a]).key@
                != (#[trigger] gs[b]).key@ by {
                if a != q && b != q {
                    let oa = if a < q { a } else { a - 1 };
                    let ob = if b < q { b } else { b - 1 };
                    assert(gs[a] == old_gs[oa] && gs[b] == old_gs[ob]);
                } else if a == q {
                    let ob = if b < q { b } else { b - 1 };
                    assert(gs[b] == old_gs[ob]);
                } else {
                    let oa = if a < q { a } else { a - 1 };
                    assert(gs[a] == old_gs[oa]);
                }
            }
        }
        lemma_trains_for(gs, q as int);
        assert forall|k: PatternKeyView| has_group(gs, k) <==> (has_group(old_gs, k) || k == kv) by {
            if has_group(gs, k) && k != kv {
                let j = choose|j: int| 0 <= j < gs.len() && (#[trigger] gs[j]).key@ == k;
                let oj = if j < q { j } else { j - 1 };
                assert(old_gs[oj].key@ == k);
            }
            if has_group(old_gs, k) {
                let j = choose|j: int| 0 <= j < old_gs.len() && (#[trigger] old_gs[j]).key@ == k;
                let nj = if j < q { j } else { j + 1 };
                assert(gs[nj].key@ == k);
            }
        }
        assert forall|k: PatternKeyView| trains_for(gs, k) == if k == kv {
            trains_for(old_gs, k).push(idx)
        } else {
            trains_for(old_gs, k)
        } by {
            if k == kv {
                assert(trains_for(old_gs, k) == Seq::<usize>::empty());
                assert(seq![idx] =~= Seq::<usize>::empty().push(idx));
            } else if has_group(old_gs, k) {
                let j = choose|j: int| 0 <= j < old_gs.len() && (#[trigger] old_gs[j]).key@ == k;
                let nj = if j < q { j } else { j + 1 };
                lemma_trains_for(old_gs, j);
                lemma_trains_for(gs, nj);
            } else {
                assert(!has_group(gs, k));
            }
        }
    }
}


/// Indices, among the first `n` trains of `list`, of those whose stop pattern
/// (read as forward or return trains) is `pv`.
pub open spec fn members_upto(list: Seq<JTrainGraphTrainInfo>, is_return: bool, pv: StopPatternView, n: int) -> Seq<usize>
    decreases n,
{
    if n <= 0 {
        Seq::empty()
    } else {
        let r = members_upto(list, is_return, pv, n - 1);
        if stop_pattern_spec(list[n - 1].times@, is_return) == Some(pv) {
            r.push((n - 1) as usize)
        } else {
            r
        }
    }
}

/// The trains that belong under key `kv`, among the first `n_in` forward and
/// `n_away` return trains.
pub open spec fn expected_members(
    tin: Seq<JTrainGraphTrainInfo>,
    taway: Seq<JTrainGraphTrainInfo>,
    kv: PatternKeyView,
    n_in: int,
    n_away: int,
) -> Seq<usize> {
    if kv.1 {
        members_upto(taway, true, kv.0, n_away)
    } else {
        members_upto(tin, false, kv.0, n_in)
    }
}

/// Group the trains by stop pattern and direction: one group per key that
/// some train has, in key order, each listing its trains in timetable order.
pub fn group_trains_by_pattern(trains: &JTrainGraphTrains) -> (r: Vec<PatternGroup>)
    ensures
        groups_ordered(r@),
        forall|kv: PatternKeyView| has_group(r@, kv) <==> expected_members(
            trains.trains_in@,
            trains.trains_away@,
            kv,
            trains.trains_in@.len() as int,
            trains.trains_away@.len() as int,
        ).len() > 0,
        forall|kv: PatternKeyView| trains_for(r@, kv) == expected_members(
            trains.trains_in@,
            trains.trains_away@,
            kv,
            trains.trains_in@.len() as int,
            trains.trains_away@.len() as int,
        ),
{
    let ghost tin = trains.trains_in@;
    let ghost taway = trains.trains_away@;
    let mut groups: Vec<PatternGroup> = Vec::new();
    let mut i: usize = 0;
    while i < trains.trains_in.len()
        invariant
            tin == trains.trains_in@,
            taway == trains.trains_away@,
            i <= tin.len(),
            groups_ordered(groups@),
            forall|kv: PatternKeyView| has_group(groups@, kv) <==> expected_members(tin, taway, kv, i as int, 0).len() > 0,
            forall|kv: PatternKeyView| trains_for(groups@, kv) == expected_members(tin, taway, kv, i as int, 0),
        decreases tin.len() - i,
    {
        let ghost before = groups@;
        match get_stop_pattern(&trains.trains_in[i], false) {
            Some(pattern) => {
                let ghost pv = pattern@;
                let key = PatternKey { pattern, is_return: false };
                add_to_groups(&mut groups, key, i);
                proof {
                    assert forall|kv: PatternKeyView| #[trigger] expected_members(tin, taway, kv, i + 1, 0) == if kv == (pv, false) {
                        expected_members(tin, taway, kv, i as int, 0).push(i)
                    } else {
                        expected_members(tin, taway, kv, i as int, 0)
                    } by {}
                }
            },
            None => {
                proof {
                    assert forall|kv: PatternKeyView| #[trigger] expected_members(tin, taway, kv, i + 1, 0)
                        == expected_members(tin, taway, kv, i as int, 0) by {}
                }
            },
        }
        i = i + 1;
    }
    let mut j: usize = 0;
    while j < trains.trains_away.len()
        invariant
            tin == trains.trains_in@,
            taway == trains.trains_away@,
            j <= taway.len(),
            groups_ordered(groups@),
            forall|kv: PatternKeyView| has_group(groups@, kv) <==> expected_members(tin, taway, kv, tin.len() as int, j as int).len() > 0,
            forall|kv: PatternKeyView| trains_for(groups@, kv) == expected_members(tin, taway, kv, tin.len() as int, j as int),
        decreases taway.len() - j,
    {
        match get_stop_pattern(&trains.trains_away[j], true) {
            Some(pattern) => {
                let ghost pv = pattern@;
                let key = PatternKey { pattern, is_return: true };
                add_to_groups(&mut groups, key, j);
                proof {
                    assert forall|kv: PatternKeyView| #[trigger] expected_members(tin, taway, kv, tin.len() as int, j + 1) == if kv == (pv, true) {
                        expected_members(tin, taway, kv, tin.len() as int, j as int).push(j)
                    } else {
                        expected_members(tin, taway, kv, tin.len() as int, j as int)
                    } by {}
                }
            },
            None => {
                proof {
                    assert forall|kv: PatternKeyView| #[trigger] expected_members(tin, taway, kv, tin.len() as int, j + 1)
                        == expected_members(tin, taway, kv, tin.len() as int, j as int) by {}
                }
            },
        }
        j = j + 1;
    }
    groups
}


proof fn lemma_members(list: Seq<JTrainGraphTrainInfo>, is_return: bool, pv: StopPatternView, n: int)
    requires
        0 <= n <= list.len(),
        list.len() <= usize::MAX,
    ensures
        forall|k: int| 0 <= k < members_upto(list, is_return, pv, n).len() ==> {
            let t = #[trigger] members_upto(list, is_return, pv, n)[k];
            &&& t < n
            &&& stop_pattern_spec(list[t as int].times@, is_return) == Some(pv)
        },
    decreases n,
{
    if n > 0 {
        lemma_members(list, is_return, pv, n - 1);
        let r = members_upto(list, is_return, pv, n - 1);
        if stop_pattern_spec(list[n - 1].times@, is_return) == Some(pv) {
            assert forall|k: int| 0 <= k < r.len() + 1 implies {
                let t = #[trigger] r.push((n - 1) as usize)[k];
                &&& t < n
                &&& stop_pattern_spec(list[t as int].times@, is_return) == Some(pv)
            } by {
                if k < r.len() {
                    assert(r.push((n - 1) as usize)[k] == r[k]);
                }
            }
        }
    }
}

proof fn lemma_pattern_stops(times: Seq<JTrainGraphTrainTime>, is_return: bool, pv: StopPatternView)
    requires
        stop_pattern_spec(times, is_return) == Some(pv),
        times.len() <= usize::MAX,
    ensures
        pv.0 == stops_upto(times, times.len() as int),
        pv.0.len() >= 2,
        forall|k: int| 0 <= k < pv.0.len() ==> #[trigger] pv.0[k] < times.len(),
        forall|a: int, b: int| 0 <= a < b < pv.0.len() ==> #[trigger] pv.0[a] < #[trigger] pv.0[b],
{
    lemma_stops_bounded(times, times.len() as int);
}

/// The stops of a key's pattern.
pub open spec fn pattern_stops(kv: PatternKeyView) -> Seq<usize> {
    let (pv, _r) = kv;
    let (stops, _d, _p) = pv;
    stops
}

/// Station of the first stop of a pattern.
pub open spec fn first_stop(kv: PatternKeyView) -> int {
    let (pv, _r) = kv;
    let (stops, _d, _p) = pv;
    stops[0] as int
}

/// Station of the last stop of a pattern.
pub open spec fn last_stop(kv: PatternKeyView) -> int {
    let (pv, _r) = kv;
    let (stops, _d, _p) = pv;
    stops.last() as int
}

/// Where the trains of a group depart: the last stop for return trains, the first otherwise.
pub open spec fn departure_stop(kv: PatternKeyView) -> int {
    if kv.1 { last_stop(kv) } else { first_stop(kv) }
}

/// Where the trains of a group arrive.
pub open spec fn arrival_stop(kv: PatternKeyView) -> int {
    if kv.1 { first_stop(kv) } else { last_stop(kv) }
}

/// Line name `"<from> - <to>"` for a group, from the station names of its
/// departure and arrival stops.
pub open spec fn base_line_id(stations: Seq<JTrainGraphStation>, kv: PatternKeyView) -> Seq<char> {
    stations[departure_stop(kv)].name@ + " - "@ + stations[arrival_stop(kv)].name@
}

/// Line name of the `g`-th group: the base name, with `" (g)"` appended when
/// a line of that name already exists.
pub open spec fn line_id_spec(stations: Seq<JTrainGraphStation>, kv: PatternKeyView, g: nat, existing: Seq<Seq<char>>) -> Seq<char> {
    let base = base_line_id(stations, kv);
    if existing.contains(base) {
        base + " ("@ + decimal_spec(g) + ")"@
    } else {
        base
    }
}

/// Departures of the trains `members` of `list` at entry `dep`: (train, seconds
/// since midnight) for each train whose departure time there is present and parses.
pub open spec fn departures_spec(list: Seq<JTrainGraphTrainInfo>, members: Seq<usize>, dep: int) -> Seq<(usize, u32)>
    decreases members.len(),
{
    if members.len() == 0 {
        Seq::empty()
    } else {
        let r = departures_spec(list, members.drop_last(), dep);
        let t = members.last();
        let s = list[t as int].times@[dep].departure@;
        if s.len() > 0 && parse_time_spec(s) is Some {
            r.push((t, parse_time_spec(s)->0 as u32))
        } else {
            r
        }
    }
}

/// What becomes of one pattern group: the line's name, its departure and
/// arrival stations (indices into the timetable's stations), and one departure
/// per train (train index in its list, seconds since midnight).
pub struct LinePlan {
    pub line_id: String,
    pub departure_station: usize,
    pub arrival_station: usize,
    pub departures: Vec<(usize, u32)>,
}

/// Every stop of every train that has a stop pattern is a station of the timetable.
pub open spec fn stops_within_stations(tt: JTrainGraphTimetable) -> bool {
    &&& forall|i: int| 0 <= i < tt.trains.trains_in@.len() ==> match stop_pattern_spec(
        (#[trigger] tt.trains.trains_in@[i]).times@,
        false,
    ) {
        Some(pv) => pv.0.last() < tt.stations.stations@.len(),
        None => true,
    }
    &&& forall|i: int| 0 <= i < tt.trains.trains_away@.len() ==> match stop_pattern_spec(
        (#[trigger] tt.trains.trains_away@[i]).times@,
        true,
    ) {
        Some(pv) => pv.0.last() < tt.stations.stations@.len(),
        None => true,
    }
}

fn append_decimal_suffix(out: &mut String, g: usize)
    ensures
        final(out)@ == old(out)@ + " ("@ + decimal_spec(g as nat) + ")"@,
{
    out.append(" (");
    push_decimal(out, g as u64);
    out.append(")");
}

fn contains_string(items: &[String], s: &String) -> (r: bool)
    ensures
        r == crate::csv_import::string_views(items@).contains(s@),
{
    let ghost v = crate::csv_import::string_views(items@);
    let mut i: usize = 0;
    while i < items.len()
        invariant
            i <= items@.len(),
            v == crate::csv_import::string_views(items@),
            forall|j: int| 0 <= j < i ==> (#[trigger] v[j]) != s@,
        decreases items.len() - i,
    {
        assert(v[i as int] == items@[i as int]@);
        if str_eq(items[i].as_str(), s.as_str()) {
            return true;
        }
        i = i + 1;
    }
    false
}

/// Plan the lines of a jTrainGraph import: the pattern groups, in key order,
/// and for the `g`-th group its line name, departure and arrival stations and
/// departures. Groups whose trains have no usable departure get a plan with
/// no departures (the importer creates no line for them).
pub fn plan_jtraingraph_lines(timetable: &JTrainGraphTimetable, existing_line_ids: &[String]) -> (r: (Vec<PatternGroup>, Vec<LinePlan>))
    requires
        stops_within_stations(*timetable),
    ensures
        ({
            let tin = timetable.trains.trains_in@;
            let taway = timetable.trains.trains_away@;
            let gs = r.0@;
            let ps = r.1@;
            &&& groups_ordered(gs)
            &&& forall|kv: PatternKeyView| has_group(gs, kv) <==> expected_members(
                tin,
                taway,
                kv,
                tin.len() as int,
                taway.len() as int,
            ).len() > 0
            &&& forall|kv: PatternKeyView| trains_for(gs, kv) == expected_members(
                tin,
                taway,
                kv,
                tin.len() as int,
                taway.len() as int,
            )
            &&& ps.len() == gs.len()
            &&& forall|g: int| 0 <= g < ps.len() ==> {
                let kv = gs[g].key@;
                let p = #[trigger] ps[g];
                &&& p.departure_station == departure_stop(kv)
                &&& p.arrival_station == arrival_stop(kv)
                &&& p.line_id@ == line_id_spec(
                    timetable.stations.stations@,
                    kv,
                    g as nat,
                    crate::csv_import::string_views(existing_line_ids@),
                )
                &&& p.departures@ == departures_spec(if kv.1 { taway } else { tin }, gs[g].trains@, departure_stop(kv))
            }
        }),
{
    let ghost tin = timetable.trains.trains_in@;
    let ghost taway = timetable.trains.trains_away@;
    let ghost stations = timetable.stations.stations@;
    let groups = group_trains_by_pattern(&timetable.trains);
    let ghost gs = groups@;
    let mut plans: Vec<LinePlan> = Vec::new();
    let mut g: usize = 0;
    while g < groups.len()
        invariant
            gs == groups@,
            tin == timetable.trains.trains_in@,
            taway == timetable.trains.trains_away@,
            stations == timetable.stations.stations@,
            stops_within_stations(*timetable),
            groups_ordered(gs),
            forall|kv: PatternKeyView| has_group(gs, kv) <==> expected_members(tin, taway, kv, tin.len() as int, taway.len() as int).len() > 0,
            forall|kv: PatternKeyView| trains_for(gs, kv) == expected_members(tin, taway, kv, tin.len() as int, taway.len() as int),
            g <= gs.len(),
            plans@.len() == g,
            forall|h: int| 0 <= h < g ==> {
                let kv = gs[h].key@;
                let p = #[trigger] plans@[h];
                &&& p.departure_station == departure_stop(kv)
                &&& p.arrival_station == arrival_stop(kv)
                &&& p.line_id@ == line_id_spec(stations, kv, h as nat, crate::csv_import::string_views(existing_line_ids@))
                &&& p.departures@ == departures_spec(if kv.1 { taway } else { tin }, gs[h].trains@, departure_stop(kv))
            },
        decreases gs.len() - g,
    {
        let group = &groups[g];
        let ghost kv = group.key@;
        let is_return = group.key.is_return;
        let ghost list = if is_return { taway } else { tin };
        let ghost members = group.trains@;
        proof {
            assert(has_group(gs, kv));
            lemma_trains_for(gs, g as int);
            assert(members == expected_members(tin, taway, kv, tin.len() as int, taway.len() as int));
            assert(members == members_upto(list, is_return, kv.0, list.len() as int));
            assert(tin.len() == timetable.trains.trains_in.len());
            assert(taway.len() == timetable.trains.trains_away.len());
            lemma_members(list, is_return, kv.0, list.len() as int);
            assert(members.len() > 0);
            let t0 = members[0];
            assert(stop_pattern_spec(list[t0 as int].times@, is_return) == Some(kv.0));
            assert(list[t0 as int].times@.len() == list[t0 as int].times.len());
            lemma_pattern_stops(list[t0 as int].times@, is_return, kv.0);
            if is_return {
                assert(taway[t0 as int] == list[t0 as int]);
            } else {
                assert(tin[t0 as int] == list[t0 as int]);
            }
        }
        let stops = &group.key.pattern.station_indices;
        let first = stops[0];
        let last = stops[stops.len() - 1];
        let (dep, arr) = if is_return { (last, first) } else { (first, last) };
        let mut line_id = String::new();
        line_id.append(timetable.stations.stations[dep].name.as_str());
        line_id.append(" - ");
        line_id.append(timetable.stations.stations[arr].name.as_str());
        assert(line_id@ =~= base_line_id(stations, kv));
        if contains_string(existing_line_ids, &line_id) {
            append_decimal_suffix(&mut line_id, g);
        }
        let mut departures: Vec<(usize, u32)> = Vec::new();
        let mut k: usize = 0;
        while k < group.trains.len()
            invariant
                tin == timetable.trains.trains_in@,
                taway == timetable.trains.trains_away@,
                list == if is_return { taway } else { tin },
                members == group.trains@,
                k <= members.len(),
                forall|m: int| 0 <= m < members.len() ==> {
                    let t = #[trigger] members[m];
                    &&& t < list.len()
                    &&& stop_pattern_spec(list[t as int].times@, is_return) == Some(kv.0)
                },
                pattern_stops(kv).len() >= 2,
                dep as int == departure_stop(kv),
                kv.1 == is_return,
                pattern_stops(kv) == group.key.pattern.station_indices@,
                departures@ == departures_spec(list, members.take(k as int), dep as int),
            decreases members.len() - k,
        {
            let t = group.trains[k];
            proof {
                assert(list[t as int].times@.len() == list[t as int].times.len());
                lemma_pattern_stops(list[t as int].times@, is_return, kv.0);
            }
            let train = if is_return { &timetable.trains.trains_away[t] } else { &timetable.trains.trains_in[t] };
            assert(train.times@ == list[t as int].times@);
            let s = &train.times[dep].departure;
            assert(members.take(k + 1).drop_last() =~= members.take(k as int));
            if s.unicode_len() > 0 {
                match parse_time(s.as_str()) {
                    Some(sec) => {
                        departures.push((t, sec));
                    },
                    None => {},
                }
            }
            k = k + 1;
        }
        assert(members.take(members.len() as int) =~= members);
        plans.push(LinePlan { line_id, departure_station: dep, arrival_station: arr, departures });
        g = g + 1;
    }
    (groups, plans)
}


/// What the railway graph says about one hop of a route, in travel order:
/// the timetable stations it joins, the edge between them (if there is one),
/// that edge's tracks, the platforms of both stations, and the default
/// platforms the graph suggests for leaving the origin and reaching the destination.
pub struct HopInfo {
    pub from_station: usize,
    pub to_station: usize,
    pub edge_index: Option<usize>,
    pub tracks: Vec<Track>,
    pub origin_platforms: Vec<JTrainGraphPlatform>,
    pub destination_platforms: Vec<JTrainGraphPlatform>,
    pub default_origin_platform: usize,
    pub default_destination_platform: usize,
}

/// One planned route segment; durations and wait times in seconds.
#[derive(Debug, Clone, Copy, PartialEq, Eq, Structural)]
pub struct PlannedSegment {
    pub edge_index: usize,
    pub track_index: usize,
    pub origin_platform: usize,
    pub destination_platform: usize,
    pub duration: Option<i64>,
    pub wait_time: i64,
}

/// The hops between consecutive stations from `first` to `last`, in travel
/// order: ascending, or descending for a return route.
pub open spec fn route_pairs(first: int, last: int, is_return: bool) -> Seq<(int, int)> {
    let n = if last > first { last - first } else { 0 };
    Seq::new(n as nat, |h: int| if is_return { (last - h, last - h - 1) } else { (first + h, first + h + 1) })
}

/// A well-formed stop pattern: stops strictly increasing, one duration per
/// hop between stops, one platform pair per stop.
pub open spec fn pattern_wf(pv: StopPatternView) -> bool {
    let (stops, durations, platforms) = pv;
    &&& stops.len() >= 1
    &&& durations.len() + 1 == stops.len()
    &&& platforms.len() == stops.len()
    &&& forall|a: int, b: int| 0 <= a < b < stops.len() ==> #[trigger] stops[a] < #[trigger] stops[b]
}

/// Value of key `k` in a map, if present.
pub open spec fn map_get<V>(m: Map<usize, V>, k: usize) -> Option<V> {
    if m.contains_key(k) {
        Some(m[k])
    } else {
        None
    }
}

/// Duration of the hop that starts at station `s`, among the first `n`
/// durations of the pattern (the last such hop, as later entries win).
pub open spec fn duration_lookup(pv: StopPatternView, is_return: bool, s: usize, n: int) -> Option<i64>
    decreases n,
{
    if n <= 0 {
        None
    } else if hop(pv.0, n - 1, is_return).0 == s {
        Some(pv.1[n - 1])
    } else {
        duration_lookup(pv, is_return, s, n - 1)
    }
}

/// Wait time recorded for station `s`: the first train's wait there, when
/// some hop among the first `n` ends at `s` and that wait is known.
pub open spec fn wait_lookup(trains: Seq<&JTrainGraphTrainInfo>, pv: StopPatternView, is_return: bool, s: usize, n: int) -> Option<i64> {
    if (exists|i: int| 0 <= i < n && #[trigger] hop(pv.0, i, is_return).1 == s) && wait_at(trains, s as int) is Some {
        Some(wait_at(trains, s as int)->0 as i64)
    } else {
        None
    }
}

/// Stop index of station `s` among the first `n` stops (the last one, as later entries win).
pub open spec fn stop_lookup(stops: Seq<usize>, s: usize, n: int) -> Option<usize>
    decreases n,
{
    if n <= 0 {
        None
    } else if stops[n - 1] == s {
        Some((n - 1) as usize)
    } else {
        stop_lookup(stops, s, n - 1)
    }
}

/// Index of the platform named `name` (first match), if the name is not empty.
pub open spec fn platform_position(plats: Seq<JTrainGraphPlatform>, name: Seq<char>, i: int) -> Option<int>
    decreases plats.len() - i,
{
    if name.len() == 0 || i < 0 || i >= plats.len() {
        None
    } else if plats[i].name@ == name {
        Some(i)
    } else {
        platform_position(plats, name, i + 1)
    }
}

/// The named platform, or the default when it is not found.
pub open spec fn pick_platform(plats: Seq<JTrainGraphPlatform>, name: Seq<char>, default: usize) -> usize {
    match platform_position(plats, name, 0) {
        Some(i) => i as usize,
        None => default,
    }
}

/// Platform at the origin of a hop, and the platform carried on: at a stop,
/// its departure track (else its arrival track) when given; otherwise the
/// platform carried from the previous hop, or the graph's default.
pub open spec fn origin_choice(h: HopInfo, pv: StopPatternView, current: Option<usize>) -> (usize, Option<usize>) {
    let fallback = match current { Some(c) => c, None => h.default_origin_platform };
    match stop_lookup(pv.0, h.from_station, pv.0.len() as int) {
        Some(k) => {
            let (arr, dep) = pv.2[k as int];
            if dep.len() > 0 {
                let p = pick_platform(h.origin_platforms@, dep, h.default_origin_platform);
                (p, Some(p))
            } else if arr.len() > 0 {
                let p = pick_platform(h.origin_platforms@, arr, h.default_origin_platform);
                (p, Some(p))
            } else {
                (fallback, current)
            }
        },
        None => (fallback, current),
    }
}

/// Platform at the destination of a hop: at a stop, its arrival track (else
/// its departure track) when given; otherwise the carried platform or the default.
pub open spec fn destination_choice(h: HopInfo, pv: StopPatternView, current: Option<usize>) -> (usize, Option<usize>) {
    let fallback = match current { Some(c) => c, None => h.default_destination_platform };
    match stop_lookup(pv.0, h.to_station, pv.0.len() as int) {
        Some(k) => {
            let (arr, dep) = pv.2[k as int];
            if arr.len() > 0 {
                let p = pick_platform(h.destination_platforms@, arr, h.default_destination_platform);
                (p, Some(p))
            } else if dep.len() > 0 {
                let p = pick_platform(h.destination_platforms@, dep, h.default_destination_platform);
                (p, Some(p))
            } else {
                (fallback, current)
            }
        },
        None => (fallback, current),
    }
}

/// The track used on a hop: the first track that allows the travel direction, else 0.
pub open spec fn hop_track(h: HopInfo) -> usize {
    first_allowed_from(h.tracks@, h.from_station < h.to_station, 0, h.tracks@.len() - 1) as usize
}

/// The segments planned for the first `n` hops, and the platform carried after them.
pub open spec fn planned_segments(
    hops: Seq<HopInfo>,
    pv: StopPatternView,
    trains: Seq<&JTrainGraphTrainInfo>,
    is_return: bool,
    n: int,
) -> (Seq<PlannedSegment>, Option<usize>)
    decreases n,
{
    if n <= 0 {
        (Seq::empty(), None)
    } else {
        let (segs, cur) = planned_segments(hops, pv, trains, is_return, n - 1);
        let h = hops[n - 1];
        let (o, cur1) = origin_choice(h, pv, cur);
        let (d, cur2) = destination_choice(h, pv, cur1);
        let seg = PlannedSegment {
            edge_index: match h.edge_index { Some(e) => e, None => 0 },
            track_index: hop_track(h),
            origin_platform: o,
            destination_platform: d,
            duration: duration_lookup(pv, is_return, h.from_station, pv.1.len() as int),
            wait_time: match wait_lookup(trains, pv, is_return, h.to_station, pv.1.len() as int) {
                Some(w) => w,
                None => 0,
            },
        };
        (segs.push(seg), cur2)
    }
}

/// Index of the first hop without an edge, if any.
pub open spec fn first_missing_edge(hops: Seq<HopInfo>, i: int) -> Option<int>
    decreases hops.len() - i,
{
    if i < 0 || i >= hops.len() {
        None
    } else if hops[i].edge_index is None {
        Some(i)
    } else {
        first_missing_edge(hops, i + 1)
    }
}

/// The error for a hop without an edge.
pub open spec fn missing_edge_message(h: HopInfo) -> Seq<char> {
    "No edge found between stations "@ + decimal_spec(h.from_station as nat) + " and "@ + decimal_spec(h.to_station as nat)
}

proof fn lemma_stop_lookup_bound(stops: Seq<usize>, s: usize, n: int)
    requires
        0 <= n <= stops.len(),
        stops.len() <= usize::MAX,
    ensures
        stop_lookup(stops, s, n) matches Some(q) ==> q < n && stops[q as int] == s,
    decreases n,
{
    if n > 0 {
        lemma_stop_lookup_bound(stops, s, n - 1);
    }
}

/// The hops of a route from `first` to `last` in travel order (see `route_pairs`).
pub fn route_station_pairs(first: usize, last: usize, is_return: bool) -> (r: Vec<(usize, usize)>)
    ensures
        r@.len() == route_pairs(first as int, last as int, is_return).len(),
        forall|h: int| 0 <= h < r@.len() ==> ((#[trigger] r@[h]).0 as int, r@[h].1 as int) == route_pairs(
            first as int,
            last as int,
            is_return,
        )[h],
{
    let mut r: Vec<(usize, usize)> = Vec::new();
    if last <= first {
        return r;
    }
    let n = last - first;
    let mut h: usize = 0;
    while h < n
        invariant
            first < last,
            n == last - first,
            h <= n,
            r@.len() == h,
            forall|j: int| 0 <= j < h ==> ((#[trigger] r@[j]).0 as int, r@[j].1 as int) == route_pairs(
                first as int,
                last as int,
                is_return,
            )[j],
        decreases n - h,
    {
        if is_return {
            r.push((last - h, last - h - 1));
        } else {
            r.push((first + h, first + h + 1));
        }
        h = h + 1;
    }
    r
}

fn pick_platform_exec(plats: &Vec<JTrainGraphPlatform>, name: &String, default: usize) -> (r: usize)
    ensures
        r == pick_platform(plats@, name@, default),
{
    match find_platform_index(plats.as_slice(), name.as_str()) {
        Some(i) => {
            proof {
                let mut j: int = 0;
                assert(platform_position(plats@, name@, 0) == Some(i as int)) by {
                    lemma_platform_position(plats@, name@, 0, i as int);
                }
            }
            i
        },
        None => {
            proof {
                lemma_platform_position_none(plats@, name@, 0);
            }
            default
        },
    }
}

pub(crate) proof fn lemma_platform_position(plats: Seq<JTrainGraphPlatform>, name: Seq<char>, i: int, found: int)
    requires
        name.len() > 0,
        0 <= i <= found < plats.len(),
        plats[found].name@ == name,
        forall|k: int| 0 <= k < found ==> (#[trigger] plats[k]).name@ != name,
    ensures
        platform_position(plats, name, i) == Some(found),
    decreases found - i,
{
    if i < found {
        lemma_platform_position(plats, name, i + 1, found);
    }
}

pub(crate) proof fn lemma_platform_position_none(plats: Seq<JTrainGraphPlatform>, name: Seq<char>, i: int)
    requires
        0 <= i,
        name.len() == 0 || forall|k: int| 0 <= k < plats.len() ==> (#[trigger] plats[k]).name@ != name,
    ensures
        platform_position(plats, name, i) is None,
    decreases plats.len() - i,
{
    if name.len() > 0 && i < plats.len() {
        lemma_platform_position_none(plats, name, i + 1);
    }
}

/// Build the route segments of a pattern group over the given hops (in travel
/// order from `first_station_idx` to `last_station_idx`, reversed for return
/// trains): durations from the pattern, wait times from the group's first
/// train, platforms from the pattern's tracks (carried over pass-through
/// stations), and the first track that allows the travel direction. Fails on
/// the first hop that has no edge.
pub fn create_route_segments(
    pattern: &StopPattern,
    trains: &[&JTrainGraphTrainInfo],
    first_station_idx: usize,
    last_station_idx: usize,
    hops: &[HopInfo],
    is_return: bool,
) -> (r: Result<Vec<PlannedSegment>, String>)
    requires
        pattern_wf(pattern@),
        trains@.len() > 0 ==> forall|k: int| 0 <= k < pattern@.0.len() ==> #[trigger] pattern@.0[k] < trains@[0].times@.len(),
        hops@.len() == route_pairs(first_station_idx as int, last_station_idx as int, is_return).len(),
        forall|h: int| 0 <= h < hops@.len() ==> ((#[trigger] hops@[h]).from_station as int, hops@[h].to_station as int)
            == route_pairs(first_station_idx as int, last_station_idx as int, is_return)[h],
    ensures
        match r {
            Ok(v) => first_missing_edge(hops@, 0) is None && v@ == planned_segments(
                hops@,
                pattern@,
                trains@,
                is_return,
                hops@.len() as int,
            ).0,
            Err(e) => match first_missing_edge(hops@, 0) {
                Some(h) => e@ == missing_edge_message(hops@[h]),
                None => false,
            },
        },
{
    broadcast use vstd::std_specs::hash::group_hash_axioms;
    let ghost pv = pattern@;
    let stops = &pattern.station_indices;
    let n_stops = stops.len();
    let mut duration_map: std::collections::HashMap<usize, i64> = std::collections::HashMap::new();
    let mut wait_time_map: std::collections::HashMap<usize, i64> = std::collections::HashMap::new();
    let mut i: usize = 0;
    while i < pattern.durations.len()
        invariant
            pv == pattern@,
            pattern_wf(pv),
            stops@ == pv.0,
            n_stops == pv.0.len(),
            i <= pv.1.len(),
            trains@.len() > 0 ==> forall|k: int| 0 <= k < pv.0.len() ==> #[trigger] pv.0[k] < trains@[0].times@.len(),
            forall|k: usize| #[trigger] map_get(duration_map@, k) == duration_lookup(pv, is_return, k, i as int),
            forall|k: usize| #[trigger] map_get(wait_time_map@, k) == wait_lookup(trains@, pv, is_return, k, i as int),
        decreases pv.1.len() - i,
    {
        let (from_idx, to_idx) = if is_return {
            (stops[n_stops - 1 - i], stops[n_stops - 2 - i])
        } else {
            (stops[i], stops[i + 1])
        };
        assert(hop(pv.0, i as int, is_return) == (from_idx as int, to_idx as int));
        let ghost old_w = wait_time_map@;
        let ghost old_d = duration_map@;
        duration_map.insert(from_idx, pattern.durations[i]);
        calculate_wait_time(trains, to_idx, &mut wait_time_map);
        proof {
            assert forall|k: usize| #[trigger] map_get(duration_map@, k) == duration_lookup(pv, is_return, k, i + 1) by {
                assert(map_get(old_d, k) == duration_lookup(pv, is_return, k, i as int));
            }
            assert forall|k: usize| #[trigger] map_get(wait_time_map@, k) == wait_lookup(trains@, pv, is_return, k, i + 1) by {
                assert(map_get(old_w, k) == wait_lookup(trains@, pv, is_return, k, i as int));
                if k == to_idx {
                    assert(hop(pv.0, i as int, is_return).1 == k);
                } else {
                    if exists|j: int| 0 <= j < i + 1 && #[trigger] hop(pv.0, j, is_return).1 == k {
                        let j = choose|j: int| 0 <= j < i + 1 && #[trigger] hop(pv.0, j, is_return).1 == k;
                        assert(j < i);
                    }
                }
            }
        }
        i = i + 1;
    }
    let mut stop_map: std::collections::HashMap<usize, usize> = std::collections::HashMap::new();
    let mut k: usize = 0;
    while k < n_stops
        invariant
            stops@ == pv.0,
            n_stops == pv.0.len(),
            k <= n_stops,
            forall|s: usize| #[trigger] map_get(stop_map@, s) == stop_lookup(pv.0, s, k as int),
        decreases n_stops - k,
    {
        let ghost old_s = stop_map@;
        stop_map.insert(stops[k], k);
        proof {
            assert forall|s: usize| #[trigger] map_get(stop_map@, s) == stop_lookup(pv.0, s, k + 1) by {
                assert(map_get(old_s, s) == stop_lookup(pv.0, s, k as int));
            }
        }
        k = k + 1;
    }
    let mut current_platform: Option<usize> = None;
    let mut segments: Vec<PlannedSegment> = Vec::new();
    proof {
        assert(pv.0.len() == n_stops);
        assert forall|s: usize| #[trigger] stop_lookup(pv.0, s, pv.0.len() as int) matches Some(q) ==> q < pv.0.len() by {
            lemma_stop_lookup_bound(pv.0, s, pv.0.len() as int);
        }
    }
    let mut h: usize = 0;
    while h < hops.len()
        invariant
            pv == pattern@,
            h <= hops@.len(),
            first_missing_edge(hops@, 0) == first_missing_edge(hops@, h as int),
            (segments@, current_platform) == planned_segments(hops@, pv, trains@, is_return, h as int),
            pattern_wf(pv),
            pv.2 == pair_views(pattern.platforms@),
            forall|s: usize| #[trigger] stop_lookup(pv.0, s, pv.0.len() as int) matches Some(q) ==> q < pv.0.len(),
            forall|s: usize| #[trigger] map_get(stop_map@, s) == stop_lookup(pv.0, s, pv.0.len() as int),
            forall|s: usize| #[trigger] map_get(duration_map@, s) == duration_lookup(pv, is_return, s, pv.1.len() as int),
            forall|s: usize| #[trigger] map_get(wait_time_map@, s) == wait_lookup(trains@, pv, is_return, s, pv.1.len() as int),
        decreases hops@.len() - h,
    {
        let hp = &hops[h];
        let edge = match hp.edge_index {
            Some(e) => e,
            None => {
                let mut msg = String::new();
                msg.append("No edge found between stations ");
                push_decimal(&mut msg, hp.from_station as u64);
                msg.append(" and ");
                push_decimal(&mut msg, hp.to_station as u64);
                return Err(msg);
            },
        };
        let ghost hv = hops@[h as int];
        assert(map_get(stop_map@, hp.from_station) == stop_lookup(pv.0, hp.from_station, pv.0.len() as int));
        let origin_platform = match stop_map.get(&hp.from_station) {
            Some(si) => {
                assert(stop_lookup(pv.0, hp.from_station, pv.0.len() as int) matches Some(q) ==> q < pv.0.len());
                let (arrival_track, departure_track) = &pattern.platforms[*si];
                assert((arrival_track@, departure_track@) == pv.2[*si as int]);
                if departure_track.unicode_len() > 0 {
                    let p = pick_platform_exec(&hp.origin_platforms, departure_track, hp.default_origin_platform);
                    current_platform = Some(p);
                    p
                } else if arrival_track.unicode_len() > 0 {
                    let p = pick_platform_exec(&hp.origin_platforms, arrival_track, hp.default_origin_platform);
                    current_platform = Some(p);
                    p
                } else {
                    match current_platform { Some(c) => c, None => hp.default_origin_platform }
                }
            },
            None => match current_platform { Some(c) => c, None => hp.default_origin_platform },
        };
        assert(map_get(stop_map@, hp.to_station) == stop_lookup(pv.0, hp.to_station, pv.0.len() as int));
        let destination_platform = match stop_map.get(&hp.to_station) {
            Some(si) => {
                assert(stop_lookup(pv.0, hp.to_station, pv.0.len() as int) matches Some(q) ==> q < pv.0.len());
                let (arrival_track, departure_track) = &pattern.platforms[*si];
                assert((arrival_track@, departure_track@) == pv.2[*si as int]);
                if arrival_track.unicode_len() > 0 {
                    let p = pick_platform_exec(&hp.destination_platforms, arrival_track, hp.default_destination_platform);
                    current_platform = Some(p);
                    p
                } else if departure_track.unicode_len() > 0 {
                    let p = pick_platform_exec(&hp.destination_platforms, departure_track, hp.default_destination_platform);
                    current_platform = Some(p);
                    p
                } else {
                    match current_platform { Some(c) => c, None => hp.default_destination_platform }
                }
            },
            None => match current_platform { Some(c) => c, None => hp.default_destination_platform },
        };
        assert(map_get(duration_map@, hp.from_station) == duration_lookup(pv, is_return, hp.from_station, pv.1.len() as int));
        let duration: Option<i64> = match duration_map.get(&hp.from_station) {
            Some(d) => Some(*d),
            None => None,
        };
        assert(map_get(wait_time_map@, hp.to_station) == wait_lookup(trains@, pv, is_return, hp.to_station, pv.1.len() as int));
        let wait_time: i64 = match wait_time_map.get(&hp.to_station) {
            Some(w) => *w,
            None => 0,
        };
        let forward = hp.from_station < hp.to_station;
        let track_index = if hp.tracks.len() == 0 {
            0
        } else {
            let t = find_compatible_track(Some(&hp.tracks), forward, hp.tracks.len() - 1);
            assert(t == compatible_track(tracks_view(Some(&hp.tracks)), forward, hp.tracks@.len() - 1));
            t
        };
        segments.push(PlannedSegment {
            edge_index: edge,
            track_index,
            origin_platform,
            destination_platform,
            duration,
            wait_time,
        });
        h = h + 1;
    }
    Ok(segments)
}

/// A train read as a return train has the same stops as read forward, one
/// duration per hop as well, and each stop's arrival and departure tracks
/// swapped.
pub proof fn law_return_pattern_mirrors_forward(times: Seq<JTrainGraphTrainTime>)
    requires
        stop_pattern_spec(times, false) is Some,
        stop_pattern_spec(times, true) is Some,
    ensures
        ({
            let f = stop_pattern_spec(times, false)->0;
            let b = stop_pattern_spec(times, true)->0;
            &&& b.0 == f.0
            &&& b.1.len() == f.1.len()
            &&& b.2.len() == f.2.len()
            &&& forall|k: int| 0 <= k < f.2.len() ==> #[trigger] b.2[k] == (f.2[k].1, f.2[k].0)
        }),
{
}

proof fn lemma_lex_usize_order(a: Seq<usize>, b: Seq<usize>, c: Seq<usize>)
    ensures
        !lex_lt_usize(a, a),
        lex_lt_usize(a, b) && lex_lt_usize(b, c) ==> lex_lt_usize(a, c),
    decreases a.len(),
{
    if a.len() > 0 {
        lemma_lex_usize_order(a.drop_first(), a.drop_first(), a.drop_first());
        if b.len() > 0 && c.len() > 0 {
            lemma_lex_usize_order(a.drop_first(), b.drop_first(), c.drop_first());
        }
    }
}

proof fn lemma_lex_i64_order(a: Seq<i64>, b: Seq<i64>, c: Seq<i64>)
    ensures
        !lex_lt_i64(a, a),
        lex_lt_i64(a, b) && lex_lt_i64(b, c) ==> lex_lt_i64(a, c),
    decreases a.len(),
{
    if a.len() > 0 {
        lemma_lex_i64_order(a.drop_first(), a.drop_first(), a.drop_first());
        if b.len() > 0 && c.len() > 0 {
            lemma_lex_i64_order(a.drop_first(), b.drop_first(), c.drop_first());
        }
    }
}

proof fn lemma_lex_chars_order(a: Seq<char>, b: Seq<char>, c: Seq<char>)
    ensures
        !lex_lt_chars(a, a),
        lex_lt_chars(a, b) && lex_lt_chars(b, c) ==> lex_lt_chars(a, c),
    decreases a.len(),
{
    if a.len() > 0 {
        lemma_lex_chars_order(a.drop_first(), a.drop_first(), a.drop_first());
        if b.len() > 0 && c.len() > 0 {
            lemma_lex_chars_order(a.drop_first(), b.drop_first(), c.drop_first());
        }
    }
}

proof fn lemma_pair_order(a: (Seq<char>, Seq<char>), b: (Seq<char>, Seq<char>), c: (Seq<char>, Seq<char>))
    ensures
        !pair_lt(a, a),
        pair_lt(a, b) && pair_lt(b, c) ==> pair_lt(a, c),
{
    lemma_lex_chars_order(a.0, b.0, c.0);
    lemma_lex_chars_order(a.1, b.1, c.1);
    lemma_lex_chars_order(a.0, a.0, a.0);
    lemma_lex_chars_order(a.1, a.1, a.1);
}

proof fn lemma_lex_pairs_order(a: Seq<(Seq<char>, Seq<char>)>, b: Seq<(Seq<char>, Seq<char>)>, c: Seq<(Seq<char>, Seq<char>)>)
    ensures
        !lex_lt_pairs(a, a),
        lex_lt_pairs(a, b) && lex_lt_pairs(b, c) ==> lex_lt_pairs(a, c),
    decreases a.len(),
{
    if a.len() > 0 {
        lemma_lex_pairs_order(a.drop_first(), a.drop_first(), a.drop_first());
        if b.len() > 0 && c.len() > 0 {
            lemma_lex_pairs_order(a.drop_first(), b.drop_first(), c.drop_first());
            lemma_pair_order(a[0], b[0], c[0]);
        }
    }
}

/// The order in which pattern groups are listed is a strict order: no key
/// comes before itself, and it is transitive.
pub proof fn law_key_order_strict(a: PatternKeyView, b: PatternKeyView, c: PatternKeyView)
    ensures
        !key_lt(a, a),
        key_lt(a, b) && key_lt(b, c) ==> key_lt(a, c),
{
    let (pa, _ra) = a;
    let (pb, _rb) = b;
    let (pc, _rc) = c;
    lemma_lex_usize_order(pa.0, pb.0, pc.0);
    lemma_lex_usize_order(pb.0, pb.0, pb.0);
    lemma_lex_i64_order(pa.1, pb.1, pc.1);
    lemma_lex_i64_order(pb.1, pb.1, pb.1);
    lemma_lex_pairs_order(pa.2, pb.2, pc.2);
    lemma_lex_pairs_order(pb.2, pb.2, pb.2);
}

/// Pattern groups come out sorted: every group's key comes before the key of
/// every later group.
pub proof fn law_groups_sorted(gs: Seq<PatternGroup>, i: int, j: int)
    requires
        groups_ordered(gs),
        0 <= i < j < gs.len(),
    ensures
        key_lt(gs[i].key@, gs[j].key@),
    decreases j - i,
{
    if j > i + 1 {
        law_groups_sorted(gs, i, j - 1);
        assert(key_lt(gs[j - 1].key@, gs[j].key@));
        law_key_order_strict(gs[i].key@, gs[j - 1].key@, gs[j].key@);
    }
}

} // verus!

