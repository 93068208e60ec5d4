//! Column detection for CSV timetable imports: what each column of a CSV file
//! holds (station names, times, durations, platforms, ...), judged from its
//! header and a few sample values, and how columns repeat per line.

use vstd::prelude::*;
use crate::text::{
    unicode_lowercase, unicode_numeric, unicode_alphabetic, unicode_alphanumeric, trim_spec, has_infix, has_char,
    chars_of, trim_chars, string_of, str_to_lowercase, contains_chars, contains_char,
    char_is_numeric, char_is_alphabetic, parse_unsigned_spec, parse_unsigned,
};
use crate::route::RouteSegment;
use crate::routing::RouteGraph;
use crate::days_of_week::{DaysOfWeek, all_days_bits};
use crate::parsing::{
    time_format_spec, time_format_chars, parse_time_spec, parse_time_seconds, parse_i32_spec,
    parse_i32, float_syntax, is_float_literal, char_vec_views,
};

verus! {

/// What a CSV column holds.
#[derive(Debug, Clone, Copy, PartialEq, Eq, Structural)]
pub enum ColumnType {
    StationName,
    Platform,
    TrackDistance,
    DistanceOffset,
    TrackNumber,
    ArrivalTime,
    DepartureTime,
    TravelTime,
    WaitTime,
    Offset,
    Skip,
}

/// Display label of a column type.
pub open spec fn column_type_label(t: ColumnType) -> Seq<char> {
    match t {
        ColumnType::StationName => "Station Name"@,
        ColumnType::Platform => "Platform"@,
        ColumnType::TrackDistance => "Track Distance"@,
        ColumnType::DistanceOffset => "Distance Offset"@,
        ColumnType::TrackNumber => "Track Number"@,
        ColumnType::ArrivalTime => "Arrival Time"@,
        ColumnType::DepartureTime => "Departure Time"@,
        ColumnType::TravelTime => "Travel Time"@,
        ColumnType::WaitTime => "Wait Time"@,
        ColumnType::Offset => "Offset"@,
        ColumnType::Skip => "Skip"@,
    }
}

impl ColumnType {
    /// Display label of this column type.
    pub fn as_str(self) -> (r: &'static str)
        ensures
            r@ == column_type_label(self),
    {
        match self {
            ColumnType::StationName => "Station Name",
            ColumnType::Platform => "Platform",
            ColumnType::TrackDistance => "Track Distance",
            ColumnType::DistanceOffset => "Distance Offset",
            ColumnType::TrackNumber => "Track Number",
            ColumnType::ArrivalTime => "Arrival Time",
            ColumnType::DepartureTime => "Departure Time",
            ColumnType::TravelTime => "Travel Time",
            ColumnType::WaitTime => "Wait Time",
            ColumnType::Offset => "Offset",
            ColumnType::Skip => "Skip",
        }
    }
}

/// One column of an analysed CSV file.
#[derive(Debug, Clone)]
pub struct ColumnMapping {
    pub column_index: usize,
    pub column_type: ColumnType,
    pub header: Option<String>,
    pub sample_values: Vec<String>,
    pub auto_detected_type: ColumnType,
    /// Group index for repeating patterns (e.g., columns 1-3 are group 0, columns 4-6 are group 1)
    pub group_index: Option<usize>,
}

/// The column types of a list of columns.
pub open spec fn column_types(cols: Seq<ColumnMapping>) -> Seq<ColumnType> {
    cols.map_values(|c: ColumnMapping| c.column_type)
}

/// Views of a list of strings.
pub open spec fn string_views(v: Seq<String>) -> Seq<Seq<char>> {
    v.map_values(|s: String| s@)
}

/// Whether `s` looks like a clock time: trimmed, it splits at `:` into two
/// or three fields of ASCII digits.
pub fn is_time_format(s: &str) -> (r: bool)
    ensures
        r == time_format_spec(s@),
{
    let cs = chars_of(s);
    time_format_chars(cs.as_slice())
}

/// A duration such as `5min`, `30s`, `1h` or a clock time: after trimming and
/// lower-casing, a numeric first character and one of `min`, `s`, `h`; or the
/// clock-time shape.
pub open spec fn duration_format_spec(s: Seq<char>) -> bool {
    let t = unicode_lowercase(trim_spec(s));
    ||| (t.len() > 0 && unicode_numeric(t[0]) && (has_infix(t, "min"@) || has_char(t, 's') || has_char(
        t,
        'h',
    )))
    ||| time_format_spec(t)
}

fn duration_format_chars(s: &[char]) -> (r: bool)
    ensures
        r == duration_format_spec(s@),
{
    let trimmed = trim_chars(s);
    let trimmed_str = string_of(trimmed.as_slice(), 0, trimmed.len());
    assert(trimmed_str@ =~= trim_spec(s@));
    let lower = str_to_lowercase(trimmed_str.as_str());
    let t = chars_of(lower.as_str());
    if t.len() > 0 && char_is_numeric(t[0]) {
        let min = chars_of("min");
        if contains_chars(t.as_slice(), min.as_slice()) || contains_char(t.as_slice(), 's')
            || contains_char(t.as_slice(), 'h') {
            return true;
        }
    }
    time_format_chars(t.as_slice())
}

/// Whether `s` looks like a duration (`5min`, `30s`, `1h`, or a clock time).
pub fn is_duration_format(s: &str) -> (r: bool)
    ensures
        r == duration_format_spec(s@),
{
    let cs = chars_of(s);
    duration_format_chars(cs.as_slice())
}


/// A record (row) of the `csv` crate.
#[verifier::external_type_specification]
#[verifier::external_body]
pub struct ExStringRecord(csv::StringRecord);

/// The fields of a `csv::StringRecord`, in order.
pub uninterp spec fn record_fields(r: csv::StringRecord) -> Seq<Seq<char>>;

/// `csv::StringRecord::len`: the number of fields in the record.
#[verifier::external_body]
fn record_len(r: &csv::StringRecord) -> (n: usize)
    ensures
        n == record_fields(*r).len(),
{
    r.len()
}

/// `csv::StringRecord::get`: the field at index `i`, or `None` when the record
/// has no field there.
#[verifier::external_body]
fn record_get(r: &csv::StringRecord, i: usize) -> (f: Option<&str>)
    ensures
        match f {
            Some(s) => i < record_fields(*r).len() && s@ == record_fields(*r)[i as int],
            None => i >= record_fields(*r).len(),
        },
{
    r.get(i)
}

/// A word that marks a header cell: `station`, `stop` or `name`.
pub open spec fn header_word(lower: Seq<char>) -> bool {
    has_infix(lower, "station"@) || has_infix(lower, "stop"@) || has_infix(lower, "name"@)
}

/// A non-blank field with at least one alphabetic character.
pub open spec fn is_text_field(f: Seq<char>) -> bool {
    trim_spec(f).len() > 0 && exists|i: int| 0 <= i < f.len() && unicode_alphabetic(#[trigger] f[i])
}

/// How many of `fs` are text fields.
pub open spec fn count_text_fields(fs: Seq<Seq<char>>) -> nat
    decreases fs.len(),
{
    if fs.len() == 0 {
        0
    } else {
        count_text_fields(fs.drop_last()) + if is_text_field(fs.last()) { 1nat } else { 0nat }
    }
}

/// A row is taken for a header when no field looks like a time or duration,
/// and either its first field names a station, stop or name column, or at
/// least half of its fields (rounded down) are text.
pub open spec fn looks_like_header_spec(fs: Seq<Seq<char>>) -> bool {
    if exists|i: int| 0 <= i < fs.len() && (time_format_spec(#[trigger] fs[i]) || duration_format_spec(fs[i])) {
        false
    } else if fs.len() > 0 && header_word(unicode_lowercase(fs[0])) {
        true
    } else {
        count_text_fields(fs) >= fs.len() / 2
    }
}

fn has_alphabetic(f: &[char]) -> (r: bool)
    ensures
        r == exists|i: int| 0 <= i < f@.len() && unicode_alphabetic(#[trigger] f@[i]),
{
    let mut i: usize = 0;
    while i < f.len()
        invariant
            i <= f@.len(),
            forall|j: int| 0 <= j < i ==> !unicode_alphabetic(#[trigger] f@[j]),
        decreases f.len() - i,
    {
        if char_is_alphabetic(f[i]) {
            return true;
        }
        i = i + 1;
    }
    false
}

/// Whether a CSV row looks like a header row.
pub fn looks_like_header(row: &csv::StringRecord) -> (r: bool)
    ensures
        r == looks_like_header_spec(record_fields(*row)),
{
    let ghost fs = record_fields(*row);
    let n = record_len(row);
    let mut i: usize = 0;
    while i < n
        invariant
            n == fs.len(),
            fs == record_fields(*row),
            i <= n,
            forall|j: int| 0 <= j < i ==> !(time_format_spec(#[trigger] fs[j]) || duration_format_spec(fs[j])),
        decreases n - i,
    {
        let f = match record_get(row, i) { Some(f) => f, None => { return false; } };
        let cs = chars_of(f);
        if time_format_chars(cs.as_slice()) || duration_format_chars(cs.as_slice()) {
            return false;
        }
        i = i + 1;
    }
    if let Some(first) = record_get(row, 0) {
        let lower = str_to_lowercase(first);
        let l = chars_of(lower.as_str());
        let station = chars_of("station");
        let stop = chars_of("stop");
        let name = chars_of("name");
        if contains_chars(l.as_slice(), station.as_slice()) || contains_chars(l.as_slice(), stop.as_slice())
            || contains_chars(l.as_slice(), name.as_slice()) {
            return true;
        }
    }
    let mut count: usize = 0;
    let mut k: usize = 0;
    while k < n
        invariant
            n == fs.len(),
            fs == record_fields(*row),
            k <= n,
            count == count_text_fields(fs.take(k as int)),
            count <= k,
        decreases n - k,
    {
        let f = match record_get(row, k) { Some(f) => f, None => { return false; } };
        let cs = chars_of(f);
        let t = trim_chars(cs.as_slice());
        assert(fs.take(k + 1).drop_last() =~= fs.take(k as int));
        if t.len() > 0 && has_alphabetic(cs.as_slice()) {
            count = count + 1;
        }
        k = k + 1;
    }
    assert(fs.take(n as int) =~= fs);
    count >= n / 2
}


/// Column type suggested by a lower-cased header, if its words say which.
pub open spec fn header_column_type(lower: Seq<char>, has_station: bool) -> Option<ColumnType> {
    if (has_infix(lower, "station"@) || has_infix(lower, "stop"@)) && !has_station {
        Some(ColumnType::StationName)
    } else if has_infix(lower, "offset"@) {
        Some(ColumnType::Offset)
    } else if has_infix(lower, "platform"@) || has_infix(lower, "plat"@) {
        Some(ColumnType::Platform)
    } else if has_infix(lower, "distance"@) || has_infix(lower, "km"@) {
        Some(ColumnType::TrackDistance)
    } else if has_infix(lower, "track"@) {
        Some(ColumnType::TrackNumber)
    } else if has_infix(lower, "arr"@) {
        Some(ColumnType::ArrivalTime)
    } else if has_infix(lower, "dep"@) {
        Some(ColumnType::DepartureTime)
    } else if has_infix(lower, "travel"@) || has_infix(lower, "duration"@) {
        Some(ColumnType::TravelTime)
    } else if has_infix(lower, "wait"@) || has_infix(lower, "dwell"@) {
        Some(ColumnType::WaitTime)
    } else {
        None
    }
}

/// The samples that are not blank, in order.
pub open spec fn non_blank(samples: Seq<Seq<char>>) -> Seq<Seq<char>>
    decreases samples.len(),
{
    if samples.len() == 0 {
        Seq::empty()
    } else {
        let rest = non_blank(samples.drop_last());
        if trim_spec(samples.last()).len() > 0 {
            rest.push(samples.last())
        } else {
            rest
        }
    }
}

/// Some sample has a numeric character.
pub open spec fn any_numeric_char(ne: Seq<Seq<char>>) -> bool {
    exists|k: int, i: int| 0 <= k < ne.len() && 0 <= i < ne[k].len() && unicode_numeric(#[trigger] ne[k][i])
}

/// Every sample, trimmed, parses as `i32`.
pub open spec fn all_i32(ne: Seq<Seq<char>>) -> bool {
    forall|k: int| 0 <= k < ne.len() ==> parse_i32_spec(trim_spec(#[trigger] ne[k])) is Some
}

/// Every sample, trimmed, parses as `f64`.
pub open spec fn all_float(ne: Seq<Seq<char>>) -> bool {
    forall|k: int| 0 <= k < ne.len() ==> float_syntax(trim_spec(#[trigger] ne[k]))
}

/// Some sample is an integer above 1.
pub open spec fn any_i32_above_one(ne: Seq<Seq<char>>) -> bool {
    exists|k: int| 0 <= k < ne.len() && match parse_i32_spec(trim_spec(#[trigger] ne[k])) {
        Some(v) => v > 1,
        None => false,
    }
}

/// Every sample is the integer 1 or 2.
pub open spec fn all_one_or_two(ne: Seq<Seq<char>>) -> bool {
    forall|k: int| 0 <= k < ne.len() ==> (parse_i32_spec(trim_spec(#[trigger] ne[k])) == Some(1int)
        || parse_i32_spec(trim_spec(ne[k])) == Some(2int))
}

/// Some sample contains a `.`.
pub open spec fn any_dot(ne: Seq<Seq<char>>) -> bool {
    exists|k: int| 0 <= k < ne.len() && has_char(#[trigger] ne[k], '.')
}

/// Every sample looks like a clock time.
pub open spec fn all_time_format(ne: Seq<Seq<char>>) -> bool {
    forall|k: int| 0 <= k < ne.len() ==> time_format_spec(#[trigger] ne[k])
}

/// Every sample looks like a duration.
pub open spec fn all_duration_format(ne: Seq<Seq<char>>) -> bool {
    forall|k: int| 0 <= k < ne.len() ==> duration_format_spec(#[trigger] ne[k])
}

/// How many samples parse as clock times.
pub open spec fn time_count(ne: Seq<Seq<char>>) -> nat
    decreases ne.len(),
{
    if ne.len() == 0 {
        0
    } else {
        time_count(ne.drop_last()) + if parse_time_spec(ne.last()) is Some { 1nat } else { 0nat }
    }
}

/// Sum, in seconds, of the samples that parse as clock times.
pub open spec fn time_sum(ne: Seq<Seq<char>>) -> nat
    decreases ne.len(),
{
    if ne.len() == 0 {
        0
    } else {
        time_sum(ne.drop_last()) + match parse_time_spec(ne.last()) {
            Some(v) => v,
            None => 0nat,
        }
    }
}

/// Every sample that parses as a clock time is under one hour.
pub open spec fn times_all_short(ne: Seq<Seq<char>>) -> bool {
    forall|k: int| 0 <= k < ne.len() ==> match parse_time_spec(#[trigger] ne[k]) {
        Some(v) => v < 3600,
        None => true,
    }
}

/// The samples that parse as clock times never go below `prev` and never
/// decrease (samples that do not parse are passed over).
pub open spec fn times_non_decreasing_from(ne: Seq<Seq<char>>, prev: nat) -> bool
    decreases ne.len(),
{
    if ne.len() == 0 {
        true
    } else {
        match parse_time_spec(ne[0]) {
            None => times_non_decreasing_from(ne.drop_first(), prev),
            Some(c) => c >= prev && times_non_decreasing_from(ne.drop_first(), c),
        }
    }
}

/// An offset column: the first sample is `0:00` (or `0:00:00`) and the times never decrease.
pub open spec fn offset_like(ne: Seq<Seq<char>>) -> bool {
    ne.len() > 0 && parse_time_spec(ne[0]) == Some(0nat) && times_non_decreasing_from(ne.drop_first(), 0)
}

/// Wait time when the average parsed duration is at most two minutes, travel time otherwise.
pub open spec fn wait_or_travel(ne: Seq<Seq<char>>) -> ColumnType {
    if time_sum(ne) <= 120 * time_count(ne) {
        ColumnType::WaitTime
    } else {
        ColumnType::TravelTime
    }
}

/// Type of a column whose samples all look like clock times.
pub open spec fn time_column_type(ne: Seq<Seq<char>>, prev_type: Option<ColumnType>) -> ColumnType {
    if time_count(ne) > 0 && times_all_short(ne) {
        wait_or_travel(ne)
    } else if offset_like(ne) {
        ColumnType::Offset
    } else if prev_type == Some(ColumnType::ArrivalTime) {
        ColumnType::DepartureTime
    } else {
        ColumnType::ArrivalTime
    }
}

/// Type of a column judged from its non-blank samples alone.
pub open spec fn sample_column_type(ne: Seq<Seq<char>>, has_station: bool, prev_type: Option<ColumnType>) -> ColumnType {
    if ne.len() == 0 {
        ColumnType::Skip
    } else if !has_station && !any_numeric_char(ne) {
        ColumnType::StationName
    } else if all_float(ne) && all_i32(ne) && any_i32_above_one(ne) {
        ColumnType::Platform
    } else if all_float(ne) && all_i32(ne) && all_one_or_two(ne) {
        ColumnType::TrackNumber
    } else if all_float(ne) && any_dot(ne) {
        ColumnType::TrackDistance
    } else if all_time_format(ne) {
        time_column_type(ne, prev_type)
    } else if all_duration_format(ne) && time_count(ne) > 0 {
        wait_or_travel(ne)
    } else {
        ColumnType::Skip
    }
}

/// Type of a column from its header (which takes precedence when its words
/// say), else from its samples; `prev` are the types of the columns to its left.
pub open spec fn detect_column_type_spec(header: Option<Seq<char>>, samples: Seq<Seq<char>>, prev: Seq<ColumnType>) -> ColumnType {
    let has_station = prev.contains(ColumnType::StationName);
    let prev_type = if prev.len() > 0 { Some(prev.last()) } else { None };
    let from_header = match header {
        Some(h) => header_column_type(unicode_lowercase(h), has_station),
        None => None,
    };
    match from_header {
        Some(t) => t,
        None => sample_column_type(non_blank(samples), has_station, prev_type),
    }
}

/// The column type a lower-cased header's words suggest, if any (see
/// `header_column_type`); `has_station` says whether a station column was
/// already found.
pub fn header_column_type_exec(lower: &[char], has_station: bool) -> (r: Option<ColumnType>)
    ensures
        r == header_column_type(lower@, has_station),
{
    let station = chars_of("station");
    let stop = chars_of("stop");
    if (contains_chars(lower, station.as_slice()) || contains_chars(lower, stop.as_slice())) && !has_station {
        return Some(ColumnType::StationName);
    }
    let offset = chars_of("offset");
    if contains_chars(lower, offset.as_slice()) {
        return Some(ColumnType::Offset);
    }
    let platform = chars_of("platform");
    let plat = chars_of("plat");
    if contains_chars(lower, platform.as_slice()) || contains_chars(lower, plat.as_slice()) {
        return Some(ColumnType::Platform);
    }
    let distance = chars_of("distance");
    let km = chars_of("km");
    if contains_chars(lower, distance.as_slice()) || contains_chars(lower, km.as_slice()) {
        return Some(ColumnType::TrackDistance);
    }
    let track = chars_of("track");
    if contains_chars(lower, track.as_slice()) {
        return Some(ColumnType::TrackNumber);
    }
    let arr = chars_of("arr");
    if contains_chars(lower, arr.as_slice()) {
        return Some(ColumnType::ArrivalTime);
    }
    let dep = chars_of("dep");
    if contains_chars(lower, dep.as_slice()) {
        return Some(ColumnType::DepartureTime);
    }
    let travel = chars_of("travel");
    let duration = chars_of("duration");
    if contains_chars(lower, travel.as_slice()) || contains_chars(lower, duration.as_slice()) {
        return Some(ColumnType::TravelTime);
    }
    let wait = chars_of("wait");
    let dwell = chars_of("dwell");
    if contains_chars(lower, wait.as_slice()) || contains_chars(lower, dwell.as_slice()) {
        return Some(ColumnType::WaitTime);
    }
    None
}

fn non_blank_exec(samples: &[String]) -> (r: Vec<Vec<char>>)
    ensures
        char_vec_views(r@) == non_blank(string_views(samples@)),
{
    let ghost sv = string_views(samples@);
    let mut r: Vec<Vec<char>> = Vec::new();
    let mut i: usize = 0;
    while i < samples.len()
        invariant
            i <= samples@.len(),
            sv == string_views(samples@),
            char_vec_views(r@) == non_blank(sv.take(i as int)),
        decreases samples.len() - i,
    {
        let cs = chars_of(samples[i].as_str());
        let t = trim_chars(cs.as_slice());
        assert(sv.take(i + 1).drop_last() =~= sv.take(i as int));
        assert(sv[i as int] == samples@[i as int]@);
        if t.len() > 0 {
            r.push(cs);
            assert(char_vec_views(r@) =~= non_blank(sv.take(i + 1)));
        } else {
            assert(char_vec_views(r@) =~= non_blank(sv.take(i + 1)));
        }
        i = i + 1;
    }
    assert(sv.take(samples@.len() as int) =~= sv);
    r
}

fn any_numeric_char_exec(ne: &Vec<Vec<char>>) -> (r: bool)
    ensures
        r == any_numeric_char(char_vec_views(ne@)),
{
    let ghost v = char_vec_views(ne@);
    let mut k: usize = 0;
    while k < ne.len()
        invariant
            k <= ne@.len(),
            v == char_vec_views(ne@),
            forall|a: int, b: int| 0 <= a < k && 0 <= b < v[a].len() ==> !unicode_numeric(#[trigger] v[a][b]),
        decreases ne.len() - k,
    {
        let f = &ne[k];
        assert(v[k as int] == f@);
        let mut i: usize = 0;
        while i < f.len()
            invariant
                i <= f@.len(),
                k < ne@.len(),
                v == char_vec_views(ne@),
                v[k as int] == f@,
                forall|b: int| 0 <= b < i ==> !unicode_numeric(#[trigger] f@[b]),
            decreases f.len() - i,
        {
            if char_is_numeric(f[i]) {
                assert(unicode_numeric(v[k as int][i as int]));
                return true;
            }
            i = i + 1;
        }
        k = k + 1;
    }
    false
}

fn all_i32_exec(ne: &Vec<Vec<char>>) -> (r: bool)
    ensures
        r == all_i32(char_vec_views(ne@)),
{
    let ghost v = char_vec_views(ne@);
    let mut k: usize = 0;
    while k < ne.len()
        invariant
            k <= ne@.len(),
            v == char_vec_views(ne@),
            forall|j: int| 0 <= j < k ==> parse_i32_spec(trim_spec(#[trigger] v[j])) is Some,
        decreases ne.len() - k,
    {
        assert(v[k as int] == ne@[k as int]@);
        let t = trim_chars(ne[k].as_slice());
        if parse_i32(t.as_slice()).is_none() {
            return false;
        }
        k = k + 1;
    }
    true
}

fn all_float_exec(ne: &Vec<Vec<char>>) -> (r: bool)
    ensures
        r == all_float(char_vec_views(ne@)),
{
    let ghost v = char_vec_views(ne@);
    let mut k: usize = 0;
    while k < ne.len()
        invariant
            k <= ne@.len(),
            v == char_vec_views(ne@),
            forall|j: int| 0 <= j < k ==> float_syntax(trim_spec(#[trigger] v[j])),
        decreases ne.len() - k,
    {
        assert(v[k as int] == ne@[k as int]@);
        let t = trim_chars(ne[k].as_slice());
        if !is_float_literal(t.as_slice()) {
            return false;
        }
        k = k + 1;
    }
    true
}

/// (some sample is an integer above 1, every sample is 1 or 2)
fn integer_shape_exec(ne: &Vec<Vec<char>>) -> (r: (bool, bool))
    ensures
        r.0 == any_i32_above_one(char_vec_views(ne@)),
        r.1 == all_one_or_two(char_vec_views(ne@)),
{
    let ghost v = char_vec_views(ne@);
    let mut above = false;
    let mut ones = true;
    let mut k: usize = 0;
    while k < ne.len()
        invariant
            k <= ne@.len(),
            v == char_vec_views(ne@),
            above == exists|j: int| 0 <= j < k && match parse_i32_spec(trim_spec(#[trigger] v[j])) {
                Some(x) => x > 1,
                None => false,
            },
            ones == forall|j: int| 0 <= j < k ==> (parse_i32_spec(trim_spec(#[trigger] v[j])) == Some(1int)
                || parse_i32_spec(trim_spec(v[j])) == Some(2int)),
        decreases ne.len() - k,
    {
        assert(v[k as int] == ne@[k as int]@);
        let t = trim_chars(ne[k].as_slice());
        match parse_i32(t.as_slice()) {
            Some(x) => {
                if x > 1 {
                    above = true;
                }
                if !(x == 1 || x == 2) {
                    ones = false;
                }
            },
            None => {
                ones = false;
            },
        }
        k = k + 1;
    }
    (above, ones)
}

fn any_dot_exec(ne: &Vec<Vec<char>>) -> (r: bool)
    ensures
        r == any_dot(char_vec_views(ne@)),
{
    let ghost v = char_vec_views(ne@);
    let mut k: usize = 0;
    while k < ne.len()
        invariant
            k <= ne@.len(),
            v == char_vec_views(ne@),
            forall|j: int| 0 <= j < k ==> !has_char(#[trigger] v[j], '.'),
        decreases ne.len() - k,
    {
        assert(v[k as int] == ne@[k as int]@);
        if contains_char(ne[k].as_slice(), '.') {
            return true;
        }
        k = k + 1;
    }
    false
}

/// (every sample looks like a clock time, every sample looks like a duration)
fn time_shapes_exec(ne: &Vec<Vec<char>>) -> (r: (bool, bool))
    ensures
        r.0 == all_time_format(char_vec_views(ne@)),
        r.1 == all_duration_format(char_vec_views(ne@)),
{
    let ghost v = char_vec_views(ne@);
    let mut times = true;
    let mut durations = true;
    let mut k: usize = 0;
    while k < ne.len()
        invariant
            k <= ne@.len(),
            v == char_vec_views(ne@),
            times == forall|j: int| 0 <= j < k ==> time_format_spec(#[trigger] v[j]),
            durations == forall|j: int| 0 <= j < k ==> duration_format_spec(#[trigger] v[j]),
        decreases ne.len() - k,
    {
        assert(v[k as int] == ne@[k as int]@);
        if !time_format_chars(ne[k].as_slice()) {
            times = false;
        }
        if !duration_format_chars(ne[k].as_slice()) {
            durations = false;
        }
        k = k + 1;
    }
    (times, durations)
}

/// (number of samples that parse as times, their sum in seconds, all under an hour)
fn time_stats_exec(ne: &Vec<Vec<char>>) -> (r: (usize, u128, bool))
    ensures
        r.0 == time_count(char_vec_views(ne@)),
        r.1 == time_sum(char_vec_views(ne@)),
        r.2 == times_all_short(char_vec_views(ne@)),
{
    let ghost v = char_vec_views(ne@);
    let mut count: usize = 0;
    let mut sum: u128 = 0;
    let mut short = true;
    let mut k: usize = 0;
    while k < ne.len()
        invariant
            k <= ne@.len(),
            v == char_vec_views(ne@),
            count == time_count(v.take(k as int)),
            sum == time_sum(v.take(k as int)),
            count <= k,
            sum <= 86400 * count,
            short == forall|j: int| 0 <= j < k ==> match parse_time_spec(#[trigger] v[j]) {
                Some(x) => x < 3600,
                None => true,
            },
        decreases ne.len() - k,
    {
        assert(v[k as int] == ne@[k as int]@);
        assert(v.take(k + 1).drop_last() =~= v.take(k as int));
        match parse_time_seconds(ne[k].as_slice()) {
            Some(x) => {
                assert(x < 86400);
                count = count + 1;
                sum = sum + x as u128;
                if x >= 3600 {
                    short = false;
                }
            },
            None => {},
        }
        k = k + 1;
    }
    assert(v.take(ne@.len() as int) =~= v);
    (count, sum, short)
}

fn offset_like_exec(ne: &Vec<Vec<char>>) -> (r: bool)
    ensures
        r == offset_like(char_vec_views(ne@)),
{
    let ghost v = char_vec_views(ne@);
    if ne.len() == 0 {
        return false;
    }
    assert(v[0] == ne@[0]@);
    match parse_time_seconds(ne[0].as_slice()) {
        Some(x) => {
            if x != 0 {
                return false;
            }
        },
        None => {
            return false;
        },
    }
    let mut prev: u32 = 0;
    let mut k: usize = 1;
    assert(v.subrange(1, v.len() as int) =~= v.drop_first());
    while k < ne.len()
        invariant
            1 <= k <= ne@.len(),
            v == char_vec_views(ne@),
            times_non_decreasing_from(v.drop_first(), 0) == times_non_decreasing_from(
                v.subrange(k as int, v.len() as int),
                prev as nat,
            ),
        decreases ne.len() - k,
    {
        let ghost rest = v.subrange(k as int, v.len() as int);
        assert(rest.drop_first() =~= v.subrange(k + 1, v.len() as int));
        assert(rest[0] == ne@[k as int]@);
        match parse_time_seconds(ne[k].as_slice()) {
            Some(c) => {
                if c < prev {
                    return false;
                }
                prev = c;
            },
            None => {},
        }
        k = k + 1;
    }
    assert(v.subrange(ne@.len() as int, v.len() as int) =~= Seq::<Seq<char>>::empty());
    true
}

/// Detect the type of a column from its header, its sample values and the
/// columns already processed to its left.
pub fn detect_column_type(header: Option<&str>, samples: &[String], prev_columns: &[ColumnMapping]) -> (r: ColumnType)
    ensures
        r == detect_column_type_spec(
            match header {
                Some(h) => Some(h@),
                None => None,
            },
            string_views(samples@),
            column_types(prev_columns@),
        ),
{
    let ghost prev = column_types(prev_columns@);
    let mut has_station = false;
    let mut i: usize = 0;
    while i < prev_columns.len()
        invariant
            i <= prev_columns@.len(),
            prev == column_types(prev_columns@),
            has_station == exists|j: int| 0 <= j < i && #[trigger] prev[j] == ColumnType::StationName,
        decreases prev_columns.len() - i,
    {
        assert(prev[i as int] == prev_columns@[i as int].column_type);
        if prev_columns[i].column_type == ColumnType::StationName {
            has_station = true;
        }
        i = i + 1;
    }
    assert(has_station == prev.contains(ColumnType::StationName));
    let prev_type: Option<ColumnType> = if prev_columns.len() > 0 {
        Some(prev_columns[prev_columns.len() - 1].column_type)
    } else {
        None
    };
    if let Some(h) = header {
        let lower = str_to_lowercase(h);
        let l = chars_of(lower.as_str());
        if let Some(t) = header_column_type_exec(l.as_slice(), has_station) {
            return t;
        }
    }
    let ne = non_blank_exec(samples);
    if ne.len() == 0 {
        return ColumnType::Skip;
    }
    if !has_station && !any_numeric_char_exec(&ne) {
        return ColumnType::StationName;
    }
    let all_integer = all_i32_exec(&ne);
    let all_numeric = all_float_exec(&ne);
    if all_numeric {
        if all_integer {
            let (above, ones) = integer_shape_exec(&ne);
            if above {
                return ColumnType::Platform;
            }
            if ones {
                return ColumnType::TrackNumber;
            }
        }
        if any_dot_exec(&ne) {
            return ColumnType::TrackDistance;
        }
    }
    let (all_times, all_durations) = time_shapes_exec(&ne);
    let (count, sum, short) = time_stats_exec(&ne);
    if all_times {
        if count > 0 && short {
            if sum <= 120 * (count as u128) {
                return ColumnType::WaitTime;
            }
            return ColumnType::TravelTime;
        }
        if offset_like_exec(&ne) {
            return ColumnType::Offset;
        }
        if prev_type == Some(ColumnType::ArrivalTime) {
            return ColumnType::DepartureTime;
        }
        return ColumnType::ArrivalTime;
    }
    if all_durations && count > 0 {
        if sum <= 120 * (count as u128) {
            return ColumnType::WaitTime;
        }
        return ColumnType::TravelTime;
    }
    ColumnType::Skip
}


/// View of an optional string.
pub open spec fn opt_string_view(o: Option<String>) -> Option<Seq<char>> {
    match o {
        Some(s) => Some(s@),
        None => None,
    }
}

/// Views of optional string slices.
pub open spec fn opt_str_views(hs: Seq<Option<&str>>) -> Seq<Option<Seq<char>>> {
    hs.map_values(|h: Option<&str>| match h {
        Some(s) => Some(s@),
        None => None,
    })
}

/// End of the run of alphanumeric characters of `h` that starts at `i`.
pub open spec fn alnum_end(h: Seq<char>, i: int) -> int
    decreases h.len() - i,
{
    if i < 0 || i >= h.len() || !unicode_alphanumeric(h[i]) {
        i
    } else {
        alnum_end(h, i + 1)
    }
}

/// Start of the run of alphabetic characters of `h` that ends just before `j`.
pub open spec fn alpha_start(h: Seq<char>, j: int) -> int
    decreases j,
{
    if j <= 0 || j > h.len() || !unicode_alphabetic(h[j - 1]) {
        j
    } else {
        alpha_start(h, j - 1)
    }
}

/// Index of the first numeric character of `h` at or after `i` (or `h.len()`).
pub open spec fn first_numeric(h: Seq<char>, i: int) -> int
    decreases h.len() - i,
{
    if i < 0 || i >= h.len() {
        h.len() as int
    } else if unicode_numeric(h[i]) {
        i
    } else {
        first_numeric(h, i + 1)
    }
}

/// First pattern: the leading alphanumeric run (`"R70 Time"` gives `"R70"`),
/// when it holds a digit.
pub open spec fn leading_identifier(h: Seq<char>) -> Option<Seq<char>> {
    let id = h.take(alnum_end(h, 0));
    if id.len() > 0 && exists|i: int| 0 <= i < id.len() && unicode_numeric(#[trigger] id[i]) {
        Some(id)
    } else {
        None
    }
}

/// Second pattern: the first number in the header with the letters just
/// before it and the alphanumeric characters after it (`"Line-S5x y"` gives `"S5x"`).
pub open spec fn number_identifier(h: Seq<char>) -> Option<Seq<char>> {
    let n = first_numeric(h, 0);
    if n < h.len() {
        Some(h.subrange(alpha_start(h, n), n) + h.subrange(n, alnum_end(h, n)))
    } else {
        None
    }
}

/// The headers that are present and not blank, in order.
pub open spec fn valid_headers(hs: Seq<Option<Seq<char>>>) -> Seq<Seq<char>>
    decreases hs.len(),
{
    if hs.len() == 0 {
        Seq::empty()
    } else {
        let rest = valid_headers(hs.drop_first());
        match hs[0] {
            Some(h) => if trim_spec(h).len() > 0 {
                seq![h] + rest
            } else {
                rest
            },
            None => rest,
        }
    }
}

/// The first header that the first pattern matches, and what it gives.
pub open spec fn first_leading_identifier(vs: Seq<Seq<char>>) -> Option<Seq<char>>
    decreases vs.len(),
{
    if vs.len() == 0 {
        None
    } else if leading_identifier(vs[0]) is Some {
        leading_identifier(vs[0])
    } else {
        first_leading_identifier(vs.drop_first())
    }
}

/// The first header that the second pattern matches, and what it gives.
pub open spec fn first_number_identifier(vs: Seq<Seq<char>>) -> Option<Seq<char>>
    decreases vs.len(),
{
    if vs.len() == 0 {
        None
    } else if number_identifier(vs[0]) is Some {
        number_identifier(vs[0])
    } else {
        first_number_identifier(vs.drop_first())
    }
}

/// Line identifier found in a group of headers: the first pattern tried on
/// every header first, then the second.
pub open spec fn line_identifier_spec(hs: Seq<Option<Seq<char>>>) -> Option<Seq<char>> {
    let vs = valid_headers(hs);
    match first_leading_identifier(vs) {
        Some(id) => Some(id),
        None => first_number_identifier(vs),
    }
}

fn alnum_end_exec(h: &[char], from: usize) -> (r: usize)
    requires
        from <= h@.len(),
    ensures
        r == alnum_end(h@, from as int),
        from <= r <= h@.len(),
{
    let mut i = from;
    while i < h.len() && (char_is_alphabetic(h[i]) || char_is_numeric(h[i]))
        invariant
            from <= i <= h@.len(),
            alnum_end(h@, from as int) == alnum_end(h@, i as int),
        decreases h.len() - i,
    {
        i = i + 1;
    }
    i
}

fn leading_identifier_exec(h: &[char]) -> (r: Option<String>)
    ensures
        opt_string_view(r) == leading_identifier(h@),
{
    let end = alnum_end_exec(h, 0);
    let ghost id = h@.take(end as int);
    if end == 0 {
        return None;
    }
    let mut i: usize = 0;
    while i < end
        invariant
            i <= end <= h@.len(),
            end as int == alnum_end(h@, 0),
            id == h@.take(end as int),
            forall|j: int| 0 <= j < i ==> !unicode_numeric(#[trigger] id[j]),
        decreases end - i,
    {
        if char_is_numeric(h[i]) {
            assert(unicode_numeric(id[i as int]));
            let s = string_of(h, 0, end);
            assert(s@ =~= id);
            return Some(s);
        }
        i = i + 1;
    }
    None
}

fn number_identifier_exec(h: &[char]) -> (r: Option<String>)
    ensures
        opt_string_view(r) == number_identifier(h@),
{
    let mut n: usize = 0;
    while n < h.len() && !char_is_numeric(h[n])
        invariant
            n <= h@.len(),
            first_numeric(h@, 0) == first_numeric(h@, n as int),
        decreases h.len() - n,
    {
        n = n + 1;
    }
    if n >= h.len() {
        return None;
    }
    let mut a = n;
    while a > 0 && char_is_alphabetic(h[a - 1])
        invariant
            a <= n < h@.len(),
            alpha_start(h@, n as int) == alpha_start(h@, a as int),
        decreases a,
    {
        a = a - 1;
    }
    let e = alnum_end_exec(h, n);
    let mut s = string_of(h, a, n);
    let t = string_of(h, n, e);
    let mut k: usize = n;
    while k < e
        invariant
            n <= k <= e <= h@.len(),
            s@ == h@.subrange(a as int, n as int) + h@.subrange(n as int, k as int),
        decreases e - k,
    {
        crate::text::push_char(&mut s, h[k]);
        k = k + 1;
        assert(s@ =~= h@.subrange(a as int, n as int) + h@.subrange(n as int, k as int));
    }
    Some(s)
}

/// Extract a line identifier from column headers: looks for patterns like
/// `"Line1"`, `"L1"`, `"R70"`.
pub fn extract_line_identifier(headers: &[Option<&str>]) -> (r: Option<String>)
    ensures
        opt_string_view(r) == line_identifier_spec(opt_str_views(headers@)),
{
    let ghost hs = opt_str_views(headers@);
    let ghost vs = valid_headers(hs);
    assert(hs.subrange(0, hs.len() as int) =~= hs);
    let mut i: usize = 0;
    while i < headers.len()
        invariant
            i <= headers@.len(),
            hs == opt_str_views(headers@),
            vs == valid_headers(hs),
            first_leading_identifier(vs) == first_leading_identifier(valid_headers(hs.subrange(i as int, hs.len() as int))),
        decreases headers.len() - i,
    {
        let ghost rest = hs.subrange(i as int, hs.len() as int);
        assert(rest.drop_first() =~= hs.subrange(i + 1, hs.len() as int));
        assert(rest[0] == hs[i as int]);
        if let Some(h) = headers[i] {
            let cs = chars_of(h);
            let t = trim_chars(cs.as_slice());
            if t.len() > 0 {
                let ghost vr = valid_headers(rest);
                assert(vr[0] == h@);
                assert(vr.drop_first() =~= valid_headers(hs.subrange(i + 1, hs.len() as int)));
                let id = leading_identifier_exec(cs.as_slice());
                if id.is_some() {
                    return id;
                }
            }
        }
        i = i + 1;
    }
    assert(hs.subrange(hs.len() as int, hs.len() as int) =~= Seq::<Option<Seq<char>>>::empty());
    assert(hs.subrange(0, hs.len() as int) =~= hs);
    let mut i: usize = 0;
    while i < headers.len()
        invariant
            i <= headers@.len(),
            hs == opt_str_views(headers@),
            vs == valid_headers(hs),
            first_leading_identifier(vs) is None,
            first_number_identifier(vs) == first_number_identifier(valid_headers(hs.subrange(i as int, hs.len() as int))),
        decreases headers.len() - i,
    {
        let ghost rest = hs.subrange(i as int, hs.len() as int);
        assert(rest.drop_first() =~= hs.subrange(i + 1, hs.len() as int));
        assert(rest[0] == hs[i as int]);
        if let Some(h) = headers[i] {
            let cs = chars_of(h);
            let t = trim_chars(cs.as_slice());
            if t.len() > 0 {
                let ghost vr = valid_headers(rest);
                assert(vr[0] == h@);
                assert(vr.drop_first() =~= valid_headers(hs.subrange(i + 1, hs.len() as int)));
                let id = number_identifier_exec(cs.as_slice());
                if id.is_some() {
                    return id;
                }
            }
        }
        i = i + 1;
    }
    None
}


/// Position of the first station-name column at or after `i`.
pub open spec fn station_position_from(types: Seq<ColumnType>, i: int) -> Option<int>
    decreases types.len() - i,
{
    if i < 0 || i >= types.len() {
        None
    } else if types[i] == ColumnType::StationName {
        Some(i)
    } else {
        station_position_from(types, i + 1)
    }
}

/// A column that belongs to a line: right of the station column, and neither
/// skipped nor a distance column (those are global).
pub open spec fn is_data_column(c: ColumnMapping, station: int) -> bool {
    &&& c.column_index > station
    &&& c.column_type != ColumnType::Skip
    &&& c.column_type != ColumnType::TrackDistance
    &&& c.column_type != ColumnType::DistanceOffset
}

/// The data columns, in order.
pub open spec fn data_columns(cols: Seq<ColumnMapping>, station: int) -> Seq<ColumnMapping>
    decreases cols.len(),
{
    if cols.len() == 0 {
        Seq::empty()
    } else {
        let rest = data_columns(cols.drop_last(), station);
        if is_data_column(cols.last(), station) {
            rest.push(cols.last())
        } else {
            rest
        }
    }
}

/// The column types repeat every `len` columns: each full group after the
/// first has the first group's types, position by position.
pub open spec fn repeats_with(types: Seq<ColumnType>, len: nat) -> bool {
    forall|g: int, pos: int|
        1 <= g < (types.len() / len) as int && 0 <= pos < len ==> #[trigger] types[g * len + pos] == types[pos]
}

/// The smallest pattern length from `len` up to half the number of columns
/// that divides the number of columns and repeats.
pub open spec fn first_pattern_from(types: Seq<ColumnType>, len: nat) -> Option<nat>
    decreases (types.len() / 2 + 1 - len) as nat,
{
    if len < 1 || len > types.len() / 2 {
        None
    } else if types.len() % len == 0 && repeats_with(types, len) {
        Some(len)
    } else {
        first_pattern_from(types, len + 1)
    }
}

/// Group of the `i`-th data column: `i / len` for a pattern of length `len`, else 0.
pub open spec fn group_of(i: int, pattern: Option<nat>) -> int {
    match pattern {
        Some(len) => i / (len as int),
        None => 0,
    }
}

/// The map from column index to group that assigning the data columns in
/// order produces.
pub open spec fn assignment_map(data: Seq<ColumnMapping>, pattern: Option<nat>) -> Map<usize, usize>
    decreases data.len(),
{
    if data.len() == 0 {
        Map::empty()
    } else {
        assignment_map(data.drop_last(), pattern).insert(
            data.last().column_index,
            group_of(data.len() - 1, pattern) as usize,
        )
    }
}

/// Headers of the data columns `from..to`.
pub open spec fn headers_of(data: Seq<ColumnMapping>, from: int, to: int) -> Seq<Option<Seq<char>>> {
    data.subrange(from, to).map_values(|c: ColumnMapping| opt_string_view(c.header))
}

/// Line names found in the headers of groups `0..g` of length `len`.
pub open spec fn group_names(data: Seq<ColumnMapping>, len: nat, g: nat) -> Map<usize, Seq<char>>
    decreases g,
{
    if g == 0 {
        Map::empty()
    } else {
        let m = group_names(data, len, (g - 1) as nat);
        let from = (g - 1) * len;
        match line_identifier_spec(headers_of(data, from, from + len)) {
            Some(name) => m.insert((g - 1) as usize, name),
            None => m,
        }
    }
}

/// Line names of a simple (ungrouped) layout: group 0, from all data headers.
pub open spec fn simple_names(data: Seq<ColumnMapping>) -> Map<usize, Seq<char>> {
    match line_identifier_spec(headers_of(data, 0, data.len() as int)) {
        Some(name) => Map::empty().insert(0usize, name),
        None => Map::empty(),
    }
}

/// What column grouping gives: the pattern length (if the data columns repeat),
/// the group of each data column, and the line names found per group.
pub open spec fn column_grouping_spec(cols: Seq<ColumnMapping>) -> (Option<nat>, Map<usize, usize>, Map<usize, Seq<char>>) {
    match station_position_from(column_types(cols), 0) {
        None => (None, Map::empty(), Map::empty()),
        Some(st) => {
            let data = data_columns(cols, st);
            if data.len() < 2 {
                (None, Map::empty(), Map::empty())
            } else {
                match first_pattern_from(column_types(data), 2) {
                    Some(len) => (Some(len), assignment_map(data, Some(len)), group_names(data, len, data.len() / len)),
                    None => (None, assignment_map(data, None), simple_names(data)),
                }
            }
        },
    }
}

/// A map of line names holds the given names.
pub open spec fn names_are(m: Map<usize, String>, names: Map<usize, Seq<char>>) -> bool {
    &&& m.dom() == names.dom()
    &&& forall|k: usize| #[trigger] m.contains_key(k) ==> m[k]@ == names[k]
}

fn repeats_exec(types: &Vec<ColumnType>, len: usize) -> (r: bool)
    requires
        len >= 1,
    ensures
        r == repeats_with(types@, len as nat),
{
    let n = types.len();
    let groups = n / len;
    proof {
        assert(groups * len <= n) by (nonlinear_arith)
            requires groups == n / len, len >= 1;
    }
    let mut g: usize = 1;
    while g < groups
        invariant
            n == types@.len(),
            groups == n / len,
            groups * len <= n,
            len >= 1,
            1 <= g,
            forall|a: int, pos: int| 1 <= a < g && 0 <= pos < len ==> #[trigger] types@[a * len + pos] == types@[pos],
        decreases groups - g,
    {
        let mut pos: usize = 0;
        proof {
            assert((g + 1) * len <= groups * len) by (nonlinear_arith)
                requires g < groups, len >= 1;
            assert(g * len + len == (g + 1) * len) by (nonlinear_arith);
        }
        let base = g * len;
        while pos < len
            invariant
                n == types@.len(),
                g < groups,
                groups == n / len,
                1 <= g,
                len >= 1,
                base == g * len,
                base + len <= n,
                pos <= len,
                forall|a: int, p: int| 1 <= a < g && 0 <= p < len ==> #[trigger] types@[a * len + p] == types@[p],
                forall|p: int| 0 <= p < pos ==> #[trigger] types@[g * len + p] == types@[p],
            decreases len - pos,
        {
            if types[base + pos] != types[pos] {
                proof {
                    assert(types@[(g as int) * (len as int) + (pos as int)] != types@[pos as int]);
                    assert(1 <= g < (types@.len() / len as nat) as int);
                }
                return false;
            }
            pos = pos + 1;
        }
        g = g + 1;
    }
    true
}

fn headers_exec<'a>(cols: &'a [ColumnMapping], data: &Vec<usize>, from: usize, to: usize) -> (r: Vec<Option<&'a str>>)
    requires
        from <= to <= data@.len(),
        forall|i: int| 0 <= i < data@.len() ==> #[trigger] data@[i] < cols@.len(),
    ensures
        opt_str_views(r@) == data@.map_values(|p: usize| cols@[p as int]).subrange(from as int, to as int).map_values(
            |c: ColumnMapping| opt_string_view(c.header),
        ),
{
    let ghost want = data@.map_values(|p: usize| cols@[p as int]).subrange(from as int, to as int).map_values(
        |c: ColumnMapping| opt_string_view(c.header),
    );
    let mut r: Vec<Option<&str>> = Vec::new();
    let mut i = from;
    while i < to
        invariant
            from <= i <= to <= data@.len(),
            forall|k: int| 0 <= k < data@.len() ==> #[trigger] data@[k] < cols@.len(),
            want == data@.map_values(|p: usize| cols@[p as int]).subrange(from as int, to as int).map_values(
                |c: ColumnMapping| opt_string_view(c.header),
            ),
            opt_str_views(r@) == want.subrange(0, i - from),
        decreases to - i,
    {
        let c = &cols[data[i]];
        let h: Option<&str> = match &c.header {
            Some(s) => Some(s.as_str()),
            None => None,
        };
        let ghost expected = opt_string_view(cols@[data@[i as int] as int].header);
        assert(want[i - from] == expected);
        assert(match h { Some(x) => Some(x@), None => None::<Seq<char>> } == expected);
        let ghost old_r = r@;
        assert(opt_str_views(old_r).len() == old_r.len());
        assert(old_r.len() == i - from);
        r.push(h);
        assert(r@ == old_r.push(h));
        i = i + 1;
        assert(opt_str_views(r@) =~= want.subrange(0, i - from)) by {
            assert(opt_str_views(r@).len() == i - from);
            assert forall|q: int| 0 <= q < i - from implies #[trigger] opt_str_views(r@)[q] == want.subrange(0, i - from)[q] by {
                if q < i - from - 1 {
                    assert(opt_str_views(old_r)[q] == opt_str_views(r@)[q]);
                }
            }
        }
    }
    assert(want.subrange(0, to - from) =~= want);
    r
}

/// Detect repeating column patterns for the multi-line grouped format. Returns
/// the pattern length (when columns repeat every so many columns), the group of
/// each data column by column index, and the line names found per group.
pub fn detect_column_grouping(columns: &[ColumnMapping]) -> (r: (Option<usize>, std::collections::HashMap<usize, usize>, std::collections::HashMap<usize, String>))
    ensures
        ({
            let (p, a, n) = column_grouping_spec(columns@);
            &&& r.0 == match p {
                Some(len) => Some(len as usize),
                None => None::<usize>,
            }
            &&& r.1@ == a
            &&& names_are(r.2@, n)
        }),
{
    broadcast use vstd::std_specs::hash::group_hash_axioms;
    let mut assignments: std::collections::HashMap<usize, usize> = std::collections::HashMap::new();
    let mut names: std::collections::HashMap<usize, String> = std::collections::HashMap::new();
    let ghost types = column_types(columns@);
    let mut st: usize = 0;
    while st < columns.len() && columns[st].column_type != ColumnType::StationName
        invariant
            st <= columns@.len(),
            types == column_types(columns@),
            station_position_from(types, 0) == station_position_from(types, st as int),
        decreases columns.len() - st,
    {
        st = st + 1;
    }
    if st >= columns.len() {
        return (None, assignments, names);
    }
    let mut data: Vec<usize> = Vec::new();
    let mut dtypes: Vec<ColumnType> = Vec::new();
    let mut i: usize = 0;
    while i < columns.len()
        invariant
            i <= columns@.len(),
            st < columns@.len(),
            data@.len() == dtypes@.len(),
            forall|k: int| 0 <= k < data@.len() ==> #[trigger] data@[k] < columns@.len(),
            data@.map_values(|p: usize| columns@[p as int]) == data_columns(columns@.take(i as int), st as int),
            dtypes@ == column_types(data@.map_values(|p: usize| columns@[p as int])),
        decreases columns.len() - i,
    {
        let c = &columns[i];
        assert(columns@.take(i + 1).drop_last() =~= columns@.take(i as int));
        if c.column_index > st && c.column_type != ColumnType::Skip && c.column_type != ColumnType::TrackDistance
            && c.column_type != ColumnType::DistanceOffset {
            data.push(i);
            dtypes.push(c.column_type);
        }
        assert(data@.map_values(|p: usize| columns@[p as int]) =~= data_columns(columns@.take(i + 1), st as int));
        assert(dtypes@ =~= column_types(data@.map_values(|p: usize| columns@[p as int])));
        i = i + 1;
    }
    assert(columns@.take(columns@.len() as int) =~= columns@);
    let ghost dseq = data@.map_values(|p: usize| columns@[p as int]);
    let n = data.len();
    if n < 2 {
        return (None, assignments, names);
    }
    let max_len = n / 2;
    let mut len: usize = 2;
    while len <= max_len
        invariant
            2 <= len <= max_len + 1,
            max_len == n / 2,
            n == dtypes@.len(),
            n == data@.len(),
            first_pattern_from(dtypes@, 2) == first_pattern_from(dtypes@, len as nat),
        ensures
            2 <= len <= max_len + 1,
            first_pattern_from(dtypes@, 2) == first_pattern_from(dtypes@, len as nat),
            len <= max_len ==> (n % len == 0 && repeats_with(dtypes@, len as nat)),
        decreases max_len + 1 - len,
    {
        if n % len == 0 && repeats_exec(&dtypes, len) {
            break;
        }
        len = len + 1;
    }
    let ghost pattern = first_pattern_from(dtypes@, 2);
    let found = len <= max_len;
    assert(found ==> pattern == Some(len as nat));
    assert(!found ==> pattern is None);
    let mut k: usize = 0;
    while k < n
        invariant
            n == data@.len(),
            k <= n,
            found ==> len >= 1,
            forall|q: int| 0 <= q < data@.len() ==> #[trigger] data@[q] < columns@.len(),
            dseq == data@.map_values(|p: usize| columns@[p as int]),
            assignments@ == assignment_map(dseq.take(k as int), if found { Some(len as nat) } else { None }),
        decreases n - k,
    {
        let g: usize = if found { k / len } else { 0 };
        assert(dseq.take(k + 1).drop_last() =~= dseq.take(k as int));
        assert(dseq.take(k + 1).last() == columns@[data@[k as int] as int]);
        assignments.insert(columns[data[k]].column_index, g);
        k = k + 1;
    }
    assert(dseq.take(n as int) =~= dseq);
    if found {
        let groups = n / len;
        let mut g: usize = 0;
        proof {
            assert(groups * len <= n) by (nonlinear_arith)
                requires groups == n / len, len >= 1;
        }
        while g < groups
            invariant
                g <= groups,
                groups == n / len,
                groups * len <= n,
                len >= 2,
                n == data@.len(),
                forall|q: int| 0 <= q < data@.len() ==> #[trigger] data@[q] < columns@.len(),
                dseq == data@.map_values(|p: usize| columns@[p as int]),
                names_are(names@, group_names(dseq, len as nat, g as nat)),
            decreases groups - g,
        {
            proof {
                assert((g + 1) * len <= groups * len) by (nonlinear_arith)
                    requires g < groups, len >= 1;
                assert(g * len + len == (g + 1) * len) by (nonlinear_arith);
            }
            let from = g * len;
            let hs = headers_exec(columns, &data, from, from + len);
            let name = extract_line_identifier(hs.as_slice());
            let ghost before = names@;
            let ghost want = group_names(dseq, len as nat, (g + 1) as nat);
            assert(((g + 1) - 1) * len == from) by (nonlinear_arith)
                requires from == g * len;
            match name {
                Some(nm) => {
                    names.insert(g, nm);
                    assert(names_are(names@, want)) by {
                        assert(names@.dom() =~= want.dom());
                    }
                },
                None => {},
            }
            g = g + 1;
        }
        return (Some(len), assignments, names);
    }
    let hs = headers_exec(columns, &data, 0, n);
    match extract_line_identifier(hs.as_slice()) {
        Some(nm) => {
            names.insert(0, nm);
            assert(names@.dom() =~= simple_names(dseq).dom());
        },
        None => {
            assert(names@.dom() =~= simple_names(dseq).dom());
        },
    }
    (None, assignments, names)
}


/// A column as column grouping reads it: index, type and header.
pub open spec fn column_summary(c: ColumnMapping) -> (usize, ColumnType, Option<Seq<char>>) {
    (c.column_index, c.column_type, opt_string_view(c.header))
}

/// Two lists of columns that agree on index, type and header, position by position.
pub open spec fn same_summaries(a: Seq<ColumnMapping>, b: Seq<ColumnMapping>) -> bool {
    a.len() == b.len() && forall|i: int| 0 <= i < a.len() ==> column_summary(#[trigger] a[i]) == column_summary(b[i])
}

proof fn lemma_data_columns_summaries(a: Seq<ColumnMapping>, b: Seq<ColumnMapping>, st: int)
    requires
        same_summaries(a, b),
    ensures
        same_summaries(data_columns(a, st), data_columns(b, st)),
    decreases a.len(),
{
    if a.len() > 0 {
        assert(column_summary(a[a.len() - 1]) == column_summary(b[b.len() - 1]));
        lemma_data_columns_summaries(a.drop_last(), b.drop_last(), st);
        let da = data_columns(a.drop_last(), st);
        let db = data_columns(b.drop_last(), st);
        if is_data_column(a.last(), st) {
            assert forall|i: int| 0 <= i < da.len() + 1 implies column_summary(#[trigger] da.push(a.last())[i])
                == column_summary(db.push(b.last())[i]) by {
                if i < da.len() {
                    assert(column_summary(da[i]) == column_summary(db[i]));
                }
            }
        }
    }
}

proof fn lemma_assignment_summaries(a: Seq<ColumnMapping>, b: Seq<ColumnMapping>, p: Option<nat>)
    requires
        same_summaries(a, b),
    ensures
        assignment_map(a, p) == assignment_map(b, p),
    decreases a.len(),
{
    if a.len() > 0 {
        assert(column_summary(a[a.len() - 1]) == column_summary(b[b.len() - 1]));
        lemma_assignment_summaries(a.drop_last(), b.drop_last(), p);
    }
}

proof fn lemma_headers_summaries(a: Seq<ColumnMapping>, b: Seq<ColumnMapping>, from: int, to: int)
    requires
        same_summaries(a, b),
        0 <= from <= to <= a.len(),
    ensures
        headers_of(a, from, to) == headers_of(b, from, to),
{
    assert forall|i: int| 0 <= i < to - from implies #[trigger] headers_of(a, from, to)[i] == headers_of(b, from, to)[i] by {
        assert(column_summary(a[from + i]) == column_summary(b[from + i]));
    }
    assert(headers_of(a, from, to) =~= headers_of(b, from, to));
}

proof fn lemma_group_names_summaries(a: Seq<ColumnMapping>, b: Seq<ColumnMapping>, len: nat, g: nat)
    requires
        same_summaries(a, b),
        g * len <= a.len(),
    ensures
        group_names(a, len, g) == group_names(b, len, g),
    decreases g,
{
    if g > 0 {
        assert((g - 1) * len <= g * len) by (nonlinear_arith);
        assert((g - 1) * len + len == g * len) by (nonlinear_arith);
        lemma_group_names_summaries(a, b, len, (g - 1) as nat);
        lemma_headers_summaries(a, b, (g - 1) * len, (g - 1) * len + len);
    }
}

/// Column grouping reads only the index, type and header of each column.
proof fn lemma_grouping_summaries(a: Seq<ColumnMapping>, b: Seq<ColumnMapping>)
    requires
        same_summaries(a, b),
    ensures
        column_grouping_spec(a) == column_grouping_spec(b),
{
    assert(column_types(a) =~= column_types(b)) by {
        assert forall|i: int| 0 <= i < a.len() implies #[trigger] column_types(a)[i] == column_types(b)[i] by {
            assert(column_summary(a[i]) == column_summary(b[i]));
        }
    }
    match station_position_from(column_types(a), 0) {
        None => {},
        Some(st) => {
            lemma_data_columns_summaries(a, b, st);
            let da = data_columns(a, st);
            let db = data_columns(b, st);
            assert(column_types(da) =~= column_types(db)) by {
                assert forall|i: int| 0 <= i < da.len() implies #[trigger] column_types(da)[i] == column_types(db)[i] by {
                    assert(column_summary(da[i]) == column_summary(db[i]));
                }
            }
            if da.len() >= 2 {
                let p = first_pattern_from(column_types(da), 2);
                lemma_assignment_summaries(da, db, p);
                lemma_headers_summaries(da, db, 0, da.len() as int);
                match p {
                    Some(len) => {
                        if len > 0 {
                            assert((da.len() / len) * len <= da.len()) by (nonlinear_arith)
                                requires len > 0;
                        }
                        lemma_group_names_summaries(da, db, len, da.len() / len);
                    },
                    None => {},
                }
            }
        },
    }
}

/// Defaults applied to imported lines.
pub struct ImportDefaults {
    /// Wait time at stations, in seconds.
    pub default_wait_time: i64,
    /// Wait times per line name, in seconds.
    pub per_line_wait_times: std::collections::HashMap<String, i64>,
}

impl Default for ImportDefaults {
    fn default() -> (r: Self)
        ensures
            r.default_wait_time == 30,
            r.per_line_wait_times@ == Map::<String, i64>::empty(),
    {
        ImportDefaults { default_wait_time: 30, per_line_wait_times: std::collections::HashMap::new() }
    }
}

/// How to read a CSV file: what each column holds and how columns group into lines.
pub struct CsvImportConfig {
    pub columns: Vec<ColumnMapping>,
    pub has_headers: bool,
    pub defaults: ImportDefaults,
    /// If Some(n), columns repeat every n columns (for multi-line grouped format)
    pub pattern_repeat: Option<usize>,
    /// Line names for each group (when `pattern_repeat` is set)
    pub group_line_names: std::collections::HashMap<usize, String>,
    /// Original filename (without extension)
    pub filename: Option<String>,
    /// If true, only use existing infrastructure (no new stations/tracks created)
    pub disable_infrastructure: bool,
}

/// The records that the `csv` crate reads from `content` (without header
/// handling, so the first row is a record too), up to its first error, each
/// as its list of fields.
pub uninterp spec fn csv_records(content: Seq<char>) -> Seq<Seq<Seq<char>>>;

/// Reads `content` with a `csv::Reader` built by `ReaderBuilder` with
/// `has_headers(false)` and the other settings at their defaults, keeping the
/// records read before the first error. What the fields are is left to the
/// name `csv_records`: the CSV grammar is the crate's.
#[verifier::external_body]
fn read_records(content: &str) -> (r: Vec<csv::StringRecord>)
    ensures
        r@.len() == csv_records(content@).len(),
        forall|i: int| 0 <= i < r@.len() ==> record_fields(#[trigger] r@[i]) == csv_records(content@)[i],
{
    csv::ReaderBuilder::new().has_headers(false).from_reader(content.as_bytes()).into_records().map_while(Result::ok).collect()
}


/// Field `c` of each row that has one, in order.
pub open spec fn fields_at(rows: Seq<Seq<Seq<char>>>, c: int) -> Seq<Seq<char>>
    decreases rows.len(),
{
    if rows.len() == 0 {
        Seq::empty()
    } else {
        let r = fields_at(rows.drop_last(), c);
        if 0 <= c < rows.last().len() {
            r.push(rows.last()[c])
        } else {
            r
        }
    }
}

/// The rows read for samples: up to five after the first.
pub open spec fn sample_rows(rows: Seq<Seq<Seq<char>>>) -> Seq<Seq<Seq<char>>> {
    rows.subrange(1, if rows.len() < 6 { rows.len() as int } else { 6 })
}

/// Sample values of column `c`: the first row's field too when it is not a header.
pub open spec fn column_samples(rows: Seq<Seq<Seq<char>>>, has_headers: bool, c: int) -> Seq<Seq<char>> {
    let data = fields_at(sample_rows(rows), c);
    if has_headers {
        data
    } else {
        seq![rows[0][c]] + data
    }
}

/// Header of column `c`, when the first row is a header.
pub open spec fn column_header(rows: Seq<Seq<Seq<char>>>, has_headers: bool, c: int) -> Option<Seq<char>> {
    if has_headers {
        Some(rows[0][c])
    } else {
        None
    }
}

/// Detected types of the first `n` columns, each judged with the columns to its left.
pub open spec fn detected_types(rows: Seq<Seq<Seq<char>>>, has_headers: bool, n: nat) -> Seq<ColumnType>
    decreases n,
{
    if n == 0 {
        Seq::empty()
    } else {
        let prev = detected_types(rows, has_headers, (n - 1) as nat);
        prev.push(
            detect_column_type_spec(
                column_header(rows, has_headers, n - 1),
                column_samples(rows, has_headers, n - 1),
                prev,
            ),
        )
    }
}

proof fn lemma_detected_types_len(rows: Seq<Seq<Seq<char>>>, has_headers: bool, n: nat)
    ensures
        detected_types(rows, has_headers, n).len() == n,
    decreases n,
{
    if n > 0 {
        lemma_detected_types_len(rows, has_headers, (n - 1) as nat);
    }
}

proof fn lemma_detected_types_prefix(rows: Seq<Seq<Seq<char>>>, has_headers: bool, n: nat, m: nat)
    requires
        m <= n,
    ensures
        detected_types(rows, has_headers, m) == detected_types(rows, has_headers, n).take(m as int),
    decreases n,
{
    lemma_detected_types_len(rows, has_headers, n);
    if m < n {
        lemma_detected_types_prefix(rows, has_headers, (n - 1) as nat, m);
        lemma_detected_types_len(rows, has_headers, (n - 1) as nat);
        assert(detected_types(rows, has_headers, n).take(m as int) =~= detected_types(rows, has_headers, (n - 1) as nat).take(m as int));
    } else {
        assert(detected_types(rows, has_headers, n).take(m as int) =~= detected_types(rows, has_headers, n));
    }
}

/// Column `c` of an analysed file holds what the analysis gives for it.
pub open spec fn column_analysed(col: ColumnMapping, rows: Seq<Seq<Seq<char>>>, has_headers: bool, c: int, t: ColumnType) -> bool {
    &&& col.column_index == c
    &&& col.column_type == t
    &&& col.auto_detected_type == t
    &&& opt_string_view(col.header) == column_header(rows, has_headers, c)
    &&& string_views(col.sample_values@) == at_most_five(column_samples(rows, has_headers, c))
}

/// The first five elements of `s` (all of them if there are fewer).
pub open spec fn at_most_five(s: Seq<Seq<char>>) -> Seq<Seq<char>> {
    if s.len() <= 5 {
        s
    } else {
        s.take(5)
    }
}

/// Group of column index `c` in an assignment map.
pub open spec fn group_lookup(a: Map<usize, usize>, c: usize) -> Option<usize> {
    if a.contains_key(c) {
        Some(a[c])
    } else {
        None
    }
}

/// The rows of a list of records, each as its list of fields.
pub open spec fn records_rows(records: Seq<csv::StringRecord>) -> Seq<Seq<Seq<char>>> {
    Seq::new(records.len(), |i: int| record_fields(records[i]))
}

/// What analysing `rows` gives: `None` when there is no row, else the
/// suggested import configuration (see `analyze_records`).
pub open spec fn analysis_of(rows: Seq<Seq<Seq<char>>>, filename: Option<String>, r: Option<CsvImportConfig>) -> bool {
    match r {
        None => rows.len() == 0,
        Some(cfg) => {
            let types = detected_types(rows, cfg.has_headers, rows[0].len());
            let (p, a, n) = column_grouping_spec(cfg.columns@);
            &&& rows.len() > 0
            &&& cfg.has_headers == looks_like_header_spec(rows[0])
            &&& cfg.columns@.len() == rows[0].len()
            &&& forall|c: int| 0 <= c < cfg.columns@.len() ==> column_analysed(
                #[trigger] cfg.columns@[c],
                rows,
                cfg.has_headers,
                c,
                types[c],
            )
            &&& forall|c: int| 0 <= c < cfg.columns@.len() ==> (#[trigger] cfg.columns@[c]).group_index
                == group_lookup(a, c as usize)
            &&& cfg.pattern_repeat == match p {
                Some(len) => Some(len as usize),
                None => None::<usize>,
            }
            &&& names_are(cfg.group_line_names@, n)
            &&& cfg.defaults.default_wait_time == 30
            &&& cfg.defaults.per_line_wait_times@ == Map::<String, i64>::empty()
            &&& opt_string_view(cfg.filename) == opt_string_view(filename)
            &&& !cfg.disable_infrastructure
        },
    }
}

/// Analyse CSV content and suggest column mappings. `None` when the reader
/// yields no record.
pub fn analyze_csv(content: &str, filename: Option<String>) -> (r: Option<CsvImportConfig>)
    ensures
        analysis_of(csv_records(content@), filename, r),
{
    let records = read_records(content);
    assert(records_rows(records@) =~= csv_records(content@));
    analyze_records(&records, filename)
}

/// Suggest column mappings for the records of a CSV file (the first record
/// included, header or not): whether the first record is a header, each
/// column's detected type, header and first five samples, and the grouping
/// of repeated columns into lines. `None` when there is no record.
pub fn analyze_records(records: &Vec<csv::StringRecord>, filename: Option<String>) -> (r: Option<CsvImportConfig>)
    ensures
        analysis_of(records_rows(records@), filename, r),
{
    broadcast use vstd::std_specs::hash::group_hash_axioms;
    let ghost rows = records_rows(records@);
    if records.len() == 0 {
        return None;
    }
    let first = &records[0];
    let sample_end: usize = if records.len() < 6 { records.len() } else { 6 };
    let has_headers = looks_like_header(first);
    let n = record_len(first);
    let ghost first_fields = rows[0];
    let ghost srows = sample_rows(rows);
    assert(record_fields(records@[0]) == rows[0]);
    let mut columns: Vec<ColumnMapping> = Vec::new();
    let mut col: usize = 0;
    while col < n
        invariant
            col <= n,
            n == rows[0].len(),
            rows == records_rows(records@),
            records@.len() == rows.len(),
            records@.len() > 0,
            forall|i: int| 0 <= i < records@.len() ==> record_fields(#[trigger] records@[i]) == rows[i],
            first == &records@[0],
            sample_end == if rows.len() < 6 { rows.len() as int } else { 6 },
            srows == sample_rows(rows),
            columns@.len() == col,
            column_types(columns@) == detected_types(rows, has_headers, col as nat),
            forall|c: int| 0 <= c < col ==> column_analysed(#[trigger] columns@[c], rows, has_headers, c, column_types(columns@)[c]),
            forall|c: int| 0 <= c < col ==> (#[trigger] columns@[c]).group_index is None,
        decreases n - col,
    {
        let field = match record_get(first, col) {
            Some(f) => f,
            None => {
                return None;
            },
        };
        let header: Option<String> = if has_headers { Some(field.to_owned()) } else { None };
        let mut samples: Vec<String> = Vec::new();
        if !has_headers {
            samples.push(field.to_owned());
        }
        let ghost base = string_views(samples@);
        let mut row: usize = 1;
        while row < sample_end
            invariant
                1 <= row <= sample_end,
                sample_end <= records@.len(),
                sample_end == if rows.len() < 6 { rows.len() as int } else { 6 },
                records@.len() == rows.len(),
                forall|i: int| 0 <= i < records@.len() ==> record_fields(#[trigger] records@[i]) == rows[i],
                srows == sample_rows(rows),
                string_views(samples@) == base + fields_at(srows.take(row - 1), col as int),
            decreases sample_end - row,
        {
            assert(srows.take(row as int).drop_last() =~= srows.take(row - 1));
            assert(srows.take(row as int).last() == rows[row as int]);
            match record_get(&records[row], col) {
                Some(f) => {
                    let ghost before = string_views(samples@);
                    let owned = f.to_owned();
                    samples.push(owned);
                    assert(string_views(samples@) =~= before.push(f@));
                    assert(f@ == rows[row as int][col as int]);
                    assert(srows.take(row as int).last()[col as int] == f@);
                    assert(fields_at(srows.take(row as int), col as int) =~= fields_at(srows.take(row - 1), col as int).push(f@));
                    assert(string_views(samples@) =~= base + fields_at(srows.take(row as int), col as int));
                },
                None => {
                    assert(string_views(samples@) =~= base + fields_at(srows.take(row as int), col as int));
                },
            }
            row = row + 1;
        }
        assert(srows.take(sample_end - 1) =~= srows);
        assert(string_views(samples@) =~= column_samples(rows, has_headers, col as int));
        let detected = match &header {
            Some(h) => detect_column_type(Some(h.as_str()), samples.as_slice(), columns.as_slice()),
            None => detect_column_type(None, samples.as_slice(), columns.as_slice()),
        };
        let mut kept: Vec<String> = Vec::new();
        let mut k: usize = 0;
        while k < samples.len() && k < 5
            invariant
                k <= samples@.len(),
                k <= 5,
                string_views(kept@) == string_views(samples@).take(k as int),
            decreases samples.len() - k,
        {
            let ghost before = string_views(kept@);
            let cl = samples[k].clone();
            kept.push(cl);
            assert(string_views(kept@) =~= before.push(samples@[k as int]@));
            k = k + 1;
            assert(string_views(kept@) =~= string_views(samples@).take(k as int));
        }
        assert(string_views(kept@) =~= at_most_five(string_views(samples@)));
        let ghost prev_cols = columns@;
        columns.push(
            ColumnMapping {
                column_index: col,
                column_type: detected,
                header,
                sample_values: kept,
                auto_detected_type: detected,
                group_index: None,
            },
        );
        assert(columns@.drop_last() == prev_cols);
        assert(column_types(columns@) =~= detected_types(rows, has_headers, (col + 1) as nat));
        col = col + 1;
    }
    let ghost pre = columns@;
    let (pattern_repeat, group_assignments, group_line_names) = detect_column_grouping(columns.as_slice());
    let mut i: usize = 0;
    while i < columns.len()
        invariant
            i <= columns@.len(),
            columns@.len() == pre.len(),
            same_summaries(columns@, pre),
            forall|c: int| 0 <= c < pre.len() ==> (#[trigger] pre[c]).column_index == c,
            forall|c: int| 0 <= c < pre.len() ==> {
                let x = #[trigger] columns@[c];
                let y = pre[c];
                &&& x.column_index == y.column_index
                &&& x.column_type == y.column_type
                &&& x.auto_detected_type == y.auto_detected_type
                &&& x.header == y.header
                &&& x.sample_values == y.sample_values
            },
            forall|c: int| 0 <= c < i ==> (#[trigger] columns@[c]).group_index == group_lookup(
                group_assignments@,
                c as usize,
            ),
        decreases columns.len() - i,
    {
        let key = columns[i].column_index;
        let g: Option<usize> = match group_assignments.get(&key) {
            Some(v) => Some(*v),
            None => None,
        };
        columns[i].group_index = g;
        i = i + 1;
    }
    proof {
        lemma_grouping_summaries(columns@, pre);
        lemma_detected_types_len(rows, has_headers, n as nat);
    }
    Some(
        CsvImportConfig {
            columns,
            has_headers,
            defaults: ImportDefaults::default(),
            pattern_repeat,
            group_line_names,
            filename,
            disable_infrastructure: false,
        },
    )
}

/// The columns of one line (group) of a CSV import.
pub struct LineGroupData {
    pub line_name: String,
    pub arrival_time_column: Option<usize>,
    pub departure_time_column: Option<usize>,
    pub offset_column: Option<usize>,
    pub travel_time_column: Option<usize>,
    pub wait_column: Option<usize>,
    pub platform_column: Option<usize>,
    pub track_number_column: Option<usize>,
    pub track_distance_column: Option<usize>,
    pub distance_offset_column: Option<usize>,
}

/// Number of groups the columns are assigned to: one more than the largest
/// group index, or 0 when no column has one.
pub open spec fn group_count(cols: Seq<ColumnMapping>) -> nat
    decreases cols.len(),
{
    if cols.len() == 0 {
        0
    } else {
        let rest = group_count(cols.drop_last());
        match cols.last().group_index {
            Some(g) => if g + 1 > rest { (g + 1) as nat } else { rest },
            None => rest,
        }
    }
}

/// Index of the first column of group `g` (or, for `g == None`, of no group)
/// with type `t`, as its column index.
pub open spec fn first_column_of(cols: Seq<ColumnMapping>, g: Option<usize>, t: ColumnType, i: int) -> Option<usize>
    decreases cols.len() - i,
{
    if i < 0 || i >= cols.len() {
        None
    } else if cols[i].group_index == g && cols[i].column_type == t {
        Some(cols[i].column_index)
    } else {
        first_column_of(cols, g, t, i + 1)
    }
}

/// Some column has type `t`.
pub open spec fn has_column_type(cols: Seq<ColumnMapping>, t: ColumnType) -> bool {
    exists|i: int| 0 <= i < cols.len() && (#[trigger] cols[i]).column_type == t
}

/// How many line groups to build: the assigned groups, or a single one for an
/// infrastructure-only import (a station column and a platform, track or
/// distance column, but no groups).
pub open spec fn groups_to_create(cols: Seq<ColumnMapping>) -> nat {
    let has_infra = has_column_type(cols, ColumnType::Platform) || has_column_type(cols, ColumnType::TrackNumber)
        || has_column_type(cols, ColumnType::TrackDistance) || has_column_type(cols, ColumnType::DistanceOffset);
    if group_count(cols) == 0 && has_column_type(cols, ColumnType::StationName) && has_infra {
        1
    } else {
        group_count(cols)
    }
}

/// Name of line group `g`: the name found in the headers; for a single group
/// the file name; otherwise `"Line <g + 1>"`.
pub open spec fn group_line_name(names: Map<usize, String>, filename: Option<Seq<char>>, single: bool, g: usize) -> Seq<char> {
    if names.contains_key(g) {
        names[g]@
    } else if single && g == 0 && filename is Some {
        filename->0
    } else {
        "Line "@ + crate::text::decimal_spec((g + 1) as nat)
    }
}

/// A line group is kept when it has any time, platform, track or distance
/// column (a wait column alone does not count).
pub open spec fn group_kept(d: LineGroupData) -> bool {
    ||| d.arrival_time_column is Some
    ||| d.departure_time_column is Some
    ||| d.offset_column is Some
    ||| d.travel_time_column is Some
    ||| d.platform_column is Some
    ||| d.track_number_column is Some
    ||| d.track_distance_column is Some
    ||| d.distance_offset_column is Some
}

/// Line group `g` has the columns of its group (the first of each type) and
/// the global distance columns.
pub open spec fn group_data_ok(d: LineGroupData, config_cols: Seq<ColumnMapping>, names: Map<usize, String>, filename: Option<Seq<char>>, g: usize) -> bool {
    let grp = Some(g);
    &&& d.arrival_time_column == first_column_of(config_cols, grp, ColumnType::ArrivalTime, 0)
    &&& d.departure_time_column == first_column_of(config_cols, grp, ColumnType::DepartureTime, 0)
    &&& d.offset_column == first_column_of(config_cols, grp, ColumnType::Offset, 0)
    &&& d.travel_time_column == first_column_of(config_cols, grp, ColumnType::TravelTime, 0)
    &&& d.wait_column == first_column_of(config_cols, grp, ColumnType::WaitTime, 0)
    &&& d.platform_column == first_column_of(config_cols, grp, ColumnType::Platform, 0)
    &&& d.track_number_column == first_column_of(config_cols, grp, ColumnType::TrackNumber, 0)
    &&& d.track_distance_column == first_column_of(config_cols, None, ColumnType::TrackDistance, 0)
    &&& d.distance_offset_column == first_column_of(config_cols, None, ColumnType::DistanceOffset, 0)
    &&& d.line_name@ == group_line_name(names, filename, groups_to_create(config_cols) == 1, g)
}

/// The group has a column to import.
pub open spec fn group_has_columns(cols: Seq<ColumnMapping>, g: usize) -> bool {
    ||| first_column_of(cols, Some(g), ColumnType::ArrivalTime, 0) is Some
    ||| first_column_of(cols, Some(g), ColumnType::DepartureTime, 0) is Some
    ||| first_column_of(cols, Some(g), ColumnType::Offset, 0) is Some
    ||| first_column_of(cols, Some(g), ColumnType::TravelTime, 0) is Some
    ||| first_column_of(cols, Some(g), ColumnType::Platform, 0) is Some
    ||| first_column_of(cols, Some(g), ColumnType::TrackNumber, 0) is Some
    ||| first_column_of(cols, None, ColumnType::TrackDistance, 0) is Some
    ||| first_column_of(cols, None, ColumnType::DistanceOffset, 0) is Some
}

/// `groups` are the line groups built for the groups `kept` (in increasing
/// order): exactly the groups below `groups_to_create` that have a column to import.
pub open spec fn line_groups_built(
    groups: Seq<LineGroupData>,
    cols: Seq<ColumnMapping>,
    names: Map<usize, String>,
    filename: Option<Seq<char>>,
    kept: Seq<usize>,
) -> bool {
    let n = groups_to_create(cols);
    &&& kept.len() == groups.len()
    &&& forall|k: int| 0 <= k < kept.len() ==> #[trigger] kept[k] < n
    &&& forall|a: int, b: int| 0 <= a < b < kept.len() ==> #[trigger] kept[a] < #[trigger] kept[b]
    &&& forall|k: int| 0 <= k < groups.len() ==> group_kept(#[trigger] groups[k]) && group_data_ok(groups[k], cols, names, filename, kept[k])
    &&& forall|g: usize| g < n ==> (#[trigger] group_has_columns(cols, g) <==> kept.contains(g))
}

fn first_column_of_exec(cols: &Vec<ColumnMapping>, g: Option<usize>, t: ColumnType) -> (r: Option<usize>)
    ensures
        r == first_column_of(cols@, g, t, 0),
{
    let mut i: usize = 0;
    while i < cols.len()
        invariant
            i <= cols@.len(),
            first_column_of(cols@, g, t, 0) == first_column_of(cols@, g, t, i as int),
        decreases cols.len() - i,
    {
        if cols[i].group_index == g && cols[i].column_type == t {
            return Some(cols[i].column_index);
        }
        i = i + 1;
    }
    None
}

fn has_column_type_exec(cols: &Vec<ColumnMapping>, t: ColumnType) -> (r: bool)
    ensures
        r == has_column_type(cols@, t),
{
    let mut i: usize = 0;
    while i < cols.len()
        invariant
            i <= cols@.len(),
            forall|j: int| 0 <= j < i ==> (#[trigger] cols@[j]).column_type != t,
        decreases cols.len() - i,
    {
        if cols[i].column_type == t {
            return true;
        }
        i = i + 1;
    }
    false
}

/// Build the line groups of an import configuration: one per assigned group
/// (or one for an infrastructure-only import), each with its first column of
/// every kind, the global distance columns and its name, keeping only groups
/// that have any column to import.
pub fn build_line_groups(config: &CsvImportConfig) -> (r: Vec<LineGroupData>)
    requires
        forall|i: int| 0 <= i < config.columns@.len() ==> ((#[trigger] config.columns@[i]).group_index matches Some(g)
            ==> g < usize::MAX),
    ensures
        exists|kept: Seq<usize>| #[trigger] line_groups_built(r@, config.columns@, config.group_line_names@, opt_string_view(config.filename), kept),
{
    let ghost cols = config.columns@;
    let mut num_groups: usize = 0;
    let mut i: usize = 0;
    while i < config.columns.len()
        invariant
            cols == config.columns@,
            i <= cols.len(),
            num_groups == group_count(cols.take(i as int)),
            forall|j: int| 0 <= j < cols.len() ==> ((#[trigger] cols[j]).group_index matches Some(g) ==> g < usize::MAX),
        decreases cols.len() - i,
    {
        assert(cols.take(i + 1).drop_last() =~= cols.take(i as int));
        match config.columns[i].group_index {
            Some(g) => {
                if g + 1 > num_groups {
                    num_groups = g + 1;
                }
            },
            None => {},
        }
        i = i + 1;
    }
    assert(cols.take(cols.len() as int) =~= cols);
    let has_station = has_column_type_exec(&config.columns, ColumnType::StationName);
    let has_infra = has_column_type_exec(&config.columns, ColumnType::Platform)
        || has_column_type_exec(&config.columns, ColumnType::TrackNumber)
        || has_column_type_exec(&config.columns, ColumnType::TrackDistance)
        || has_column_type_exec(&config.columns, ColumnType::DistanceOffset);
    let to_create: usize = if num_groups == 0 && has_station && has_infra { 1 } else { num_groups };
    let track_dist_col = first_column_of_exec(&config.columns, None, ColumnType::TrackDistance);
    let dist_offset_col = first_column_of_exec(&config.columns, None, ColumnType::DistanceOffset);
    let mut out: Vec<LineGroupData> = Vec::new();
    let ghost mut kept: Seq<usize> = Seq::empty();
    let mut g: usize = 0;
    while g < to_create
        invariant
            cols == config.columns@,
            to_create == groups_to_create(cols),
            g <= to_create,
            track_dist_col == first_column_of(cols, None, ColumnType::TrackDistance, 0),
            dist_offset_col == first_column_of(cols, None, ColumnType::DistanceOffset, 0),
            kept.len() == out@.len(),
            forall|k: int| 0 <= k < kept.len() ==> #[trigger] kept[k] < g,
            forall|a: int, b: int| 0 <= a < b < kept.len() ==> #[trigger] kept[a] < #[trigger] kept[b],
            forall|k: int| 0 <= k < out@.len() ==> group_kept(#[trigger] out@[k]) && group_data_ok(
                out@[k],
                cols,
                config.group_line_names@,
                opt_string_view(config.filename),
                kept[k],
            ),
            forall|h: usize| h < g ==> (#[trigger] group_has_columns(cols, h) <==> kept.contains(h)),
        decreases to_create - g,
    {
        let grp = Some(g);
        let arrival = first_column_of_exec(&config.columns, grp, ColumnType::ArrivalTime);
        let departure = first_column_of_exec(&config.columns, grp, ColumnType::DepartureTime);
        let offset = first_column_of_exec(&config.columns, grp, ColumnType::Offset);
        let travel = first_column_of_exec(&config.columns, grp, ColumnType::TravelTime);
        let wait = first_column_of_exec(&config.columns, grp, ColumnType::WaitTime);
        let platform = first_column_of_exec(&config.columns, grp, ColumnType::Platform);
        let track_num = first_column_of_exec(&config.columns, grp, ColumnType::TrackNumber);
        let line_name: String = match config.group_line_names.get(&g) {
            Some(name) => name.clone(),
            None => {
                if to_create == 1 && g == 0 && config.filename.is_some() {
                    match &config.filename {
                        Some(f) => f.clone(),
                        None => String::new(),
                    }
                } else {
                    let mut name = String::from_str("Line ");
                    crate::text::push_decimal(&mut name, (g + 1) as u64);
                    name
                }
            },
        };
        let data = LineGroupData {
            line_name,
            arrival_time_column: arrival,
            departure_time_column: departure,
            offset_column: offset,
            travel_time_column: travel,
            wait_column: wait,
            platform_column: platform,
            track_number_column: track_num,
            track_distance_column: track_dist_col,
            distance_offset_column: dist_offset_col,
        };
        let keep = arrival.is_some() || departure.is_some() || offset.is_some() || travel.is_some()
            || platform.is_some() || track_num.is_some() || track_dist_col.is_some() || dist_offset_col.is_some();
        let ghost old_kept = kept;
        if keep {
            out.push(data);
            proof {
                kept = kept.push(g);
            }
        }
        proof {
            assert forall|h: usize| h < g + 1 implies (#[trigger] group_has_columns(cols, h) <==> kept.contains(h)) by {
                if h == g {
                    assert(group_has_columns(cols, g) == keep);
                    if keep {
                        assert(kept[kept.len() - 1] == g);
                        assert(kept.contains(g));
                    } else {
                        assert forall|k: int| 0 <= k < kept.len() implies kept[k] != g by {}
                        assert(!kept.contains(g));
                    }
                } else {
                    assert(group_has_columns(cols, h) <==> old_kept.contains(h));
                    if keep {
                        let prev = kept.drop_last();
                        assert(prev =~= old_kept);
                        assert(prev.contains(h) ==> kept.contains(h)) by {
                            if prev.contains(h) {
                                let k = choose|k: int| 0 <= k < prev.len() && prev[k] == h;
                                assert(kept[k] == h);
                            }
                        }
                        assert(kept.contains(h) ==> prev.contains(h)) by {
                            if kept.contains(h) {
                                let k = choose|k: int| 0 <= k < kept.len() && kept[k] == h;
                                if k == kept.len() - 1 {
                                    assert(kept[k] == g);
                                } else {
                                    assert(prev[k] == h);
                                }
                            }
                        }
                    }
                }
            }
        }
        g = g + 1;
    }
    assert(line_groups_built(out@, cols, config.group_line_names@, opt_string_view(config.filename), kept));
    out
}

/// The samples' clock times never decrease, starting from the first sample,
/// which must parse (samples that do not parse are passed over).
pub open spec fn monotone_times(ne: Seq<Seq<char>>) -> bool {
    ne.len() > 0 && match parse_time_spec(ne[0]) {
        Some(f) => times_non_decreasing_from(ne.drop_first(), f),
        None => false,
    }
}

/// Whether the time values never decrease (for offset detection).
pub fn is_monotonically_increasing(samples: &[&str]) -> (r: bool)
    ensures
        r == monotone_times(samples@.map_values(|s: &str| s@)),
{
    let ghost v = samples@.map_values(|s: &str| s@);
    if samples.len() == 0 {
        return false;
    }
    let first = chars_of(samples[0]);
    assert(v[0] == samples@[0]@);
    let mut prev: u32 = match parse_time_seconds(first.as_slice()) {
        Some(f) => f,
        None => {
            return false;
        },
    };
    let ghost f0 = prev;
    let mut k: usize = 1;
    assert(v.subrange(1, v.len() as int) =~= v.drop_first());
    while k < samples.len()
        invariant
            v == samples@.map_values(|s: &str| s@),
            1 <= k <= samples@.len(),
            parse_time_spec(v[0]) == Some(f0 as nat),
            times_non_decreasing_from(v.drop_first(), f0 as nat) == times_non_decreasing_from(
                v.subrange(k as int, v.len() as int),
                prev as nat,
            ),
        decreases samples.len() - k,
    {
        let ghost rest = v.subrange(k as int, v.len() as int);
        assert(rest.drop_first() =~= v.subrange(k + 1, v.len() as int));
        assert(rest[0] == samples@[k as int]@);
        let cs = chars_of(samples[k]);
        match parse_time_seconds(cs.as_slice()) {
            Some(c) => {
                if c < prev {
                    return false;
                }
                prev = c;
            },
            None => {},
        }
        k = k + 1;
    }
    assert(v.subrange(samples@.len() as int, v.len() as int) =~= Seq::<Seq<char>>::empty());
    true
}

/// Nanoseconds in a day.
pub open spec fn day_nanos() -> int {
    86_400_000_000_000
}

/// A time of day (nanoseconds since midnight) adjusted for crossing midnight:
/// a time earlier than the previous one is taken to be on the next day.
pub open spec fn wraparound_spec(time: int, prev: Option<int>) -> int {
    match prev {
        Some(p) => if time < p { time + day_nanos() } else { time },
        None => time,
    }
}

/// Normalize a time with midnight wraparound detection: if it is earlier
/// than the previous time, add 24 hours.
pub fn normalize_time_with_wraparound(time: i128, prev_time: Option<i128>) -> (r: i128)
    requires
        prev_time matches Some(p) && time < p ==> crate::route::span_ok(time as int + day_nanos()),
    ensures
        r == wraparound_spec(time as int, match prev_time { Some(p) => Some(p as int), None => None }),
{
    if let Some(prev) = prev_time {
        if time < prev {
            return time + 86_400_000_000_000;
        }
    }
    time
}

/// The times read for one station of one line (nanoseconds).
pub struct StationTimes {
    pub arrival_time: Option<i128>,
    pub departure_time: Option<i128>,
    pub travel_time: Option<i128>,
    pub wait_time: Option<i128>,
}

/// Cumulative time at a station of a line, and the tracker after it. With
/// travel times the first station starts the count at zero and each later
/// station adds its travel time (no time when it has none); otherwise the
/// station's arrival time is used (for the first station its departure time
/// or zero when it has no arrival), adjusted for crossing midnight.
pub open spec fn cumulative_spec(uses_travel_time: bool, prev: Option<int>, t: StationTimes, tracker: int) -> (Option<int>, int) {
    if uses_travel_time {
        if prev is None {
            (Some(0), 0)
        } else {
            match t.travel_time {
                Some(tt) => (Some(tracker + tt), tracker + tt),
                None => (None, tracker),
            }
        }
    } else if prev is None {
        let base = match t.arrival_time {
            Some(a) => a as int,
            None => match t.departure_time {
                Some(d) => d as int,
                None => 0,
            },
        };
        (Some(wraparound_spec(base, prev)), tracker)
    } else {
        match t.arrival_time {
            Some(a) => (Some(wraparound_spec(a as int, prev)), tracker),
            None => (None, tracker),
        }
    }
}

/// Calculate the cumulative time for a station (see `cumulative_spec`).
pub fn calculate_station_cumulative_time(
    uses_travel_time: bool,
    prev_cumulative_time: Option<i128>,
    times: &StationTimes,
    cumulative_time_tracker: &mut i128,
) -> (r: Option<i128>)
    requires
        uses_travel_time && prev_cumulative_time is Some ==> match times.travel_time {
            Some(tt) => crate::route::span_ok(*old(cumulative_time_tracker) + tt),
            None => true,
        },
        !uses_travel_time ==> match (times.arrival_time, prev_cumulative_time) {
            (Some(a), Some(p)) => a < p ==> crate::route::span_ok(a + day_nanos()),
            _ => true,
        },
    ensures
        ({
            let (c, t) = cumulative_spec(
                uses_travel_time,
                match prev_cumulative_time { Some(p) => Some(p as int), None => None },
                *times,
                *old(cumulative_time_tracker) as int,
            );
            &&& match r { Some(v) => c == Some(v as int), None => c is None }
            &&& *final(cumulative_time_tracker) == t
        }),
{
    if uses_travel_time {
        if prev_cumulative_time.is_none() {
            *cumulative_time_tracker = 0;
            Some(0)
        } else if let Some(travel) = times.travel_time {
            *cumulative_time_tracker = *cumulative_time_tracker + travel;
            Some(*cumulative_time_tracker)
        } else {
            None
        }
    } else if prev_cumulative_time.is_none() {
        let base: i128 = match times.arrival_time {
            Some(a) => a,
            None => match times.departure_time {
                Some(d) => d,
                None => 0,
            },
        };
        Some(normalize_time_with_wraparound(base, prev_cumulative_time))
    } else {
        match times.arrival_time {
            Some(a) => Some(normalize_time_with_wraparound(a, prev_cumulative_time)),
            None => None,
        }
    }
}

/// In clock-time mode a line's first station counts from its arrival time,
/// from its departure time only when it has no arrival time, and from
/// midnight when it has neither; a later station counts from its arrival
/// time, one day later when that is earlier than the previous station's
/// time, and has no time when it has no arrival time. The travel-time
/// tracker is left alone.
pub proof fn law_clock_time_cumulative(prev: Option<int>, t: StationTimes, tracker: int)
    ensures
        ({
            let (c, tr) = cumulative_spec(false, prev, t, tracker);
            &&& tr == tracker
            &&& (prev is None && t.arrival_time is Some) ==> c == Some(t.arrival_time->0 as int)
            &&& (prev is None && t.arrival_time is None && t.departure_time is Some) ==> c == Some(t.departure_time->0 as int)
            &&& (prev is None && t.arrival_time is None && t.departure_time is None) ==> c == Some(0int)
            &&& (prev is Some && t.arrival_time is Some && t.arrival_time->0 >= prev->0) ==> c == Some(t.arrival_time->0 as int)
            &&& (prev is Some && t.arrival_time is Some && t.arrival_time->0 < prev->0) ==> c == Some(t.arrival_time->0 + 86_400_000_000_000)
            &&& (prev is Some && t.arrival_time is None) ==> c is None
        }),
{
}

/// In travel-time mode a line's first station is at time zero and restarts
/// the count; each later station is the running total plus its travel time,
/// which becomes the new total, and a station without a travel time has no
/// time and leaves the total as it was.
pub proof fn law_travel_time_cumulative(prev: Option<int>, t: StationTimes, tracker: int)
    ensures
        ({
            let (c, tr) = cumulative_spec(true, prev, t, tracker);
            &&& prev is None ==> c == Some(0int) && tr == 0
            &&& (prev is Some && t.travel_time is Some) ==> c == Some(tracker + t.travel_time->0) && tr == tracker + t.travel_time->0
            &&& (prev is Some && t.travel_time is None) ==> c is None && tr == tracker
        }),
{
}

/// What one station row holds for one line group: times in nanoseconds
/// (arrival falling back to the offset column), the platform and the
/// number of tracks. Distances are read by the caller.
#[derive(Debug, Clone)]
pub struct LineStationData {
    pub arrival_time: Option<i128>,
    pub departure_time: Option<i128>,
    pub travel_time: Option<i128>,
    pub wait_time: Option<i128>,
    pub platform: Option<String>,
    pub track_number: Option<usize>,
}

/// A station row: the station's name and what it holds for each line group.
#[derive(Debug, Clone)]
pub struct StationRowData {
    pub name: String,
    pub line_data: Vec<LineStationData>,
}

/// The cell of a row in a column, if the column exists in the row.
pub open spec fn cell(fields: Seq<Seq<char>>, col: Option<usize>) -> Option<Seq<char>> {
    match col {
        Some(c) => if c < fields.len() { Some(fields[c as int]) } else { None },
        None => None,
    }
}

/// The cell, when it holds more than white space.
pub open spec fn filled(c: Option<Seq<char>>) -> Option<Seq<char>> {
    match c {
        Some(s) => if trim_spec(s).len() > 0 { Some(s) } else { None },
        None => None,
    }
}

/// The clock time of a filled cell, in nanoseconds since midnight.
pub open spec fn cell_time(c: Option<Seq<char>>) -> Option<int> {
    match filled(c) {
        Some(s) => match parse_time_spec(s) {
            Some(v) => Some(v as int * 1_000_000_000),
            None => None,
        },
        None => None,
    }
}

/// What a row holds for a line group, as plain values.
pub open spec fn line_station_spec(fields: Seq<Seq<char>>, g: LineGroupData)
    -> (Option<int>, Option<int>, Option<int>, Option<int>, Option<Seq<char>>, Option<nat>) {
    (
        match cell_time(cell(fields, g.arrival_time_column)) {
            Some(t) => Some(t),
            None => cell_time(cell(fields, g.offset_column)),
        },
        cell_time(cell(fields, g.departure_time_column)),
        cell_time(cell(fields, g.travel_time_column)),
        cell_time(cell(fields, g.wait_column)),
        filled(cell(fields, g.platform_column)),
        match cell(fields, g.track_number_column) {
            Some(s) => parse_unsigned_spec(trim_spec(s), usize::MAX as nat),
            None => None,
        },
    )
}

/// The plain values of a line's data.
pub open spec fn line_station_view(d: LineStationData)
    -> (Option<int>, Option<int>, Option<int>, Option<int>, Option<Seq<char>>, Option<nat>) {
    (
        match d.arrival_time { Some(t) => Some(t as int), None => None },
        match d.departure_time { Some(t) => Some(t as int), None => None },
        match d.travel_time { Some(t) => Some(t as int), None => None },
        match d.wait_time { Some(t) => Some(t as int), None => None },
        match d.platform { Some(p) => Some(p@), None => None },
        match d.track_number { Some(n) => Some(n as nat), None => None },
    )
}

/// The column of the first station-name mapping.
pub open spec fn station_column(cols: Seq<ColumnMapping>) -> Option<usize> {
    first_column_of_type(cols, ColumnType::StationName, 0)
}

/// The column of the first mapping of type `t` at or after `i`.
pub open spec fn first_column_of_type(cols: Seq<ColumnMapping>, t: ColumnType, i: int) -> Option<usize>
    decreases cols.len() - i,
{
    if i < 0 || i >= cols.len() {
        None
    } else if cols[i].column_type == t {
        Some(cols[i].column_index)
    } else {
        first_column_of_type(cols, t, i + 1)
    }
}

/// A station row of the first `n` records: records whose station cell is
/// filled give a row, in order, with the data of every line group.
pub open spec fn station_rows_upto(rows: Seq<Seq<Seq<char>>>, cols: Seq<ColumnMapping>, n: int) -> Seq<Seq<char>>
    decreases n,
{
    if n <= 0 {
        Seq::empty()
    } else {
        let prev = station_rows_upto(rows, cols, n - 1);
        match filled(cell(rows[n - 1], station_column(cols))) {
            Some(name) => prev.push(name),
            None => prev,
        }
    }
}

/// The records that give station rows, among the first `n`, by index.
pub open spec fn station_row_sources(rows: Seq<Seq<Seq<char>>>, cols: Seq<ColumnMapping>, n: int) -> Seq<int>
    decreases n,
{
    if n <= 0 {
        Seq::empty()
    } else {
        let prev = station_row_sources(rows, cols, n - 1);
        if filled(cell(rows[n - 1], station_column(cols))) is Some {
            prev.push(n - 1)
        } else {
            prev
        }
    }
}

fn cell_exec(r: &csv::StringRecord, col: Option<usize>) -> (c: Option<&str>)
    ensures
        match cell(record_fields(*r), col) {
            Some(s) => c matches Some(x) && x@ == s,
            None => c is None,
        },
{
    match col {
        Some(i) => record_get(r, i),
        None => None,
    }
}

fn filled_exec(c: Option<&str>) -> (r: Option<&str>)
    ensures
        match c {
            Some(s) => if trim_spec(s@).len() > 0 { r == Some(s) } else { r is None },
            None => r is None,
        },
{
    match c {
        Some(s) => {
            let t = trim_chars(chars_of(s).as_slice());
            if t.len() > 0 { Some(s) } else { None }
        },
        None => None,
    }
}

fn cell_time_exec(r: &csv::StringRecord, col: Option<usize>) -> (t: Option<i128>)
    ensures
        match cell_time(cell(record_fields(*r), col)) {
            Some(v) => t == Some(v as i128),
            None => t is None,
        },
{
    match filled_exec(cell_exec(r, col)) {
        Some(s) => parse_time_to_duration(s),
        None => None,
    }
}

/// A clock time (`H:MM` or `H:MM:SS`) as the time span since midnight, in
/// nanoseconds; `None` when it is not a valid time of day.
pub fn parse_time_to_duration(s: &str) -> (r: Option<i128>)
    ensures
        r == match parse_time_spec(s@) {
            Some(v) => Some((v * 1_000_000_000) as i128),
            None => None::<i128>,
        },
{
    let cs = chars_of(s);
    match parse_time_seconds(cs.as_slice()) {
        Some(v) => Some((v as i128) * 1_000_000_000),
        None => None,
    }
}

fn first_column_of_type_exec(cols: &Vec<ColumnMapping>, t: ColumnType) -> (r: Option<usize>)
    ensures
        r == first_column_of_type(cols@, t, 0),
{
    let mut i: usize = 0;
    while i < cols.len()
        invariant
            i <= cols@.len(),
            first_column_of_type(cols@, t, 0) == first_column_of_type(cols@, t, i as int),
        decreases cols.len() - i,
    {
        if cols[i].column_type == t {
            return Some(cols[i].column_index);
        }
        i = i + 1;
    }
    None
}

fn platform_exec(r: &csv::StringRecord, col: Option<usize>) -> (p: Option<String>)
    ensures
        match filled(cell(record_fields(*r), col)) {
            Some(s) => p matches Some(x) && x@ == s,
            None => p is None,
        },
{
    match filled_exec(cell_exec(r, col)) {
        Some(s) => Some(String::from_str(s)),
        None => None,
    }
}

fn track_number_exec(r: &csv::StringRecord, col: Option<usize>) -> (n: Option<usize>)
    ensures
        match match cell(record_fields(*r), col) {
            Some(s) => parse_unsigned_spec(trim_spec(s), usize::MAX as nat),
            None => None,
        } {
            Some(v) => n == Some(v as usize),
            None => n is None,
        },
{
    match cell_exec(r, col) {
        Some(s) => {
            let t = trim_chars(chars_of(s).as_slice());
            match parse_unsigned(t.as_slice(), usize::MAX as u64) {
                Some(v) => Some(v as usize),
                None => None,
            }
        },
        None => None,
    }
}

/// What one record holds for one line group (see `line_station_spec`).
#[verifier::spinoff_prover]
fn line_station_data(r: &csv::StringRecord, g: &LineGroupData) -> (d: LineStationData)
    ensures
        line_station_view(d) == line_station_spec(record_fields(*r), *g),
{
    let arrival_time = match cell_time_exec(r, g.arrival_time_column) {
        Some(t) => Some(t),
        None => cell_time_exec(r, g.offset_column),
    };
    let departure_time = cell_time_exec(r, g.departure_time_column);
    let travel_time = cell_time_exec(r, g.travel_time_column);
    let wait_time = cell_time_exec(r, g.wait_column);
    let platform = platform_exec(r, g.platform_column);
    let track_number = track_number_exec(r, g.track_number_column);
    LineStationData { arrival_time, departure_time, travel_time, wait_time, platform, track_number }
}

/// `row` is the station row of a record with these `fields` and station
/// `name`: the name, and what the record holds for each line group.
pub open spec fn row_collected(row: StationRowData, fields: Seq<Seq<char>>, name: Seq<char>, groups: Seq<LineGroupData>) -> bool {
    &&& row.name@ == name
    &&& row.line_data@.len() == groups.len()
    &&& forall|g: int| 0 <= g < groups.len() ==> line_station_view(#[trigger] row.line_data@[g]) == line_station_spec(fields, groups[g])
}

/// The station rows of the first `n` records.
pub open spec fn rows_collected(
    out: Seq<StationRowData>,
    rows: Seq<Seq<Seq<char>>>,
    cols: Seq<ColumnMapping>,
    groups: Seq<LineGroupData>,
    n: int,
) -> bool {
    let src = station_row_sources(rows, cols, n);
    let names = station_rows_upto(rows, cols, n);
    &&& out.len() == src.len()
    &&& names.len() == src.len()
    &&& forall|k: int| 0 <= k < src.len() ==> 0 <= #[trigger] src[k] < n
    &&& forall|k: int| 0 <= k < out.len() ==> #[trigger] row_collected(out[k], rows[src[k]], names[k], groups)
}

/// Read the station rows of the records: each record whose station cell is
/// filled gives the station's name and the record's data for every line
/// group (see `line_station_spec`).
pub fn collect_station_data(records: &[csv::StringRecord], config: &CsvImportConfig, line_groups: &[LineGroupData]) -> (r: Vec<StationRowData>)
    ensures
        rows_collected(
            r@,
            records@.map_values(|x: csv::StringRecord| record_fields(x)),
            config.columns@,
            line_groups@,
            records@.len() as int,
        ),
{
    let ghost rows = records@.map_values(|x: csv::StringRecord| record_fields(x));
    let name_col = first_column_of_type_exec(&config.columns, ColumnType::StationName);
    let mut out: Vec<StationRowData> = Vec::new();
    let mut i: usize = 0;
    while i < records.len()
        invariant
            rows == records@.map_values(|x: csv::StringRecord| record_fields(x)),
            name_col == station_column(config.columns@),
            i <= records@.len(),
            rows_collected(out@, rows, config.columns@, line_groups@, i as int),
        decreases records@.len() - i,
    {
        let rec = &records[i];
        assert(rows[i as int] == record_fields(*rec));
        let name = filled_exec(cell_exec(rec, name_col));
        let ghost src0 = station_row_sources(rows, config.columns@, i as int);
        let ghost names0 = station_rows_upto(rows, config.columns@, i as int);
        let ghost out0 = out@;
        match name {
            Some(nm) => {
                let mut line_data: Vec<LineStationData> = Vec::new();
                let mut g: usize = 0;
                while g < line_groups.len()
                    invariant
                        g <= line_groups@.len(),
                        line_data@.len() == g,
                        forall|q: int| 0 <= q < g ==> line_station_view(#[trigger] line_data@[q])
                            == line_station_spec(record_fields(*rec), line_groups@[q]),
                    decreases line_groups@.len() - g,
                {
                    line_data.push(line_station_data(rec, &line_groups[g]));
                    g = g + 1;
                }
                let row = StationRowData { name: String::from_str(nm), line_data };
                assert(row_collected(row, rows[i as int], nm@, line_groups@));
                out.push(row);
                proof {
                    let src1 = station_row_sources(rows, config.columns@, i + 1);
                    let names1 = station_rows_upto(rows, config.columns@, i + 1);
                    assert(src1 == src0.push(i as int));
                    assert(names1 == names0.push(nm@));
                    assert forall|k: int| 0 <= k < out@.len() implies #[trigger] row_collected(out@[k], rows[src1[k]], names1[k], line_groups@) by {
                        if k < out0.len() {
                            assert(out@[k] == out0[k]);
                            assert(src1[k] == src0[k]);
                            assert(names1[k] == names0[k]);
                            assert(row_collected(out0[k], rows[src0[k]], names0[k], line_groups@));
                        } else {
                            assert(src1[k] == i as int);
                            assert(names1[k] == nm@);
                        }
                    }
                    assert(rows_collected(out@, rows, config.columns@, line_groups@, i + 1));
                }
            },
            None => {
                proof {
                    let src1 = station_row_sources(rows, config.columns@, i + 1);
                    let names1 = station_rows_upto(rows, config.columns@, i + 1);
                    assert(src1 == src0);
                    assert(names1 == names0);
                    assert(rows_collected(out@, rows, config.columns@, line_groups@, i + 1));
                }
            },
        }
        i = i + 1;
    }
    out
}


/// What the `csv` crate's reader yields for `content` (without header
/// handling): each record's fields, or `None` for a record it could not read.
pub uninterp spec fn csv_results(content: Seq<char>) -> Seq<Option<Seq<Seq<char>>>>;

/// Reads `content` with a `csv::Reader` built by `ReaderBuilder` with
/// `has_headers(false)` and the other settings at their defaults, keeping
/// every result the reader yields, a record it could not read as `None`.
/// What the results are is left to the name `csv_results`.
#[verifier::external_body]
fn read_record_results(content: &str) -> (r: Vec<Option<csv::StringRecord>>)
    ensures
        r@.len() == csv_results(content@).len(),
        forall|i: int| 0 <= i < r@.len() ==> (match #[trigger] r@[i] {
            Some(rec) => csv_results(content@)[i] == Some(record_fields(rec)),
            None => csv_results(content@)[i] is None,
        }),
{
    csv::ReaderBuilder::new().has_headers(false).from_reader(content.as_bytes()).into_records().map(Result::ok).collect()
}

/// The records among `results` that could be read, in order.
pub open spec fn readable_rows(results: Seq<Option<Seq<Seq<char>>>>) -> Seq<Seq<Seq<char>>>
    decreases results.len(),
{
    if results.len() == 0 {
        Seq::empty()
    } else {
        let rest = readable_rows(results.drop_first());
        match results[0] {
            Some(r) => seq![r] + rest,
            None => rest,
        }
    }
}

/// The rows a CSV import reads from `content`: the results after the header
/// row (the first result, when the configuration says there is one), those
/// that could not be read left out.
pub open spec fn import_rows(content: Seq<char>, has_headers: bool) -> Seq<Seq<Seq<char>>> {
    let results = csv_results(content);
    if has_headers && results.len() > 0 {
        readable_rows(results.drop_first())
    } else {
        readable_rows(results)
    }
}

/// The station rows of a CSV file under an import configuration (see
/// `collect_station_data`), read from the rows the import reads (see
/// `import_rows`).
pub fn csv_station_rows(content: &str, config: &CsvImportConfig, line_groups: &[LineGroupData]) -> (r: Vec<StationRowData>)
    ensures
        rows_collected(
            r@,
            import_rows(content@, config.has_headers),
            config.columns@,
            line_groups@,
            import_rows(content@, config.has_headers).len() as int,
        ),
{
    let ghost all = csv_results(content@);
    let mut results = read_record_results(content);
    let ghost mut views: Seq<Option<Seq<Seq<char>>>> = all;
    if config.has_headers && results.len() > 0 {
        results.remove(0);
        proof { views = all.drop_first(); }
    }
    assert(views == if config.has_headers && all.len() > 0 { all.drop_first() } else { all });
    let mut records: Vec<csv::StringRecord> = Vec::new();
    let ghost mut rest = views;
    assert(records@.map_values(|x: csv::StringRecord| record_fields(x)) + readable_rows(rest) =~= readable_rows(views));
    while results.len() > 0
        invariant
            results@.len() == rest.len(),
            forall|i: int| 0 <= i < results@.len() ==> (match #[trigger] results@[i] {
                Some(rec) => rest[i] == Some(record_fields(rec)),
                None => rest[i] is None,
            }),
            records@.map_values(|x: csv::StringRecord| record_fields(x)) + readable_rows(rest) == readable_rows(views),
        decreases results@.len(),
    {
        let ghost before = records@.map_values(|x: csv::StringRecord| record_fields(x));
        let ghost first = rest[0];
        assert(match results@[0] {
            Some(rec) => first == Some(record_fields(rec)),
            None => first is None,
        });
        let item = results.remove(0);
        proof {
            assert(readable_rows(rest) == match first {
                Some(r) => seq![r] + readable_rows(rest.drop_first()),
                None => readable_rows(rest.drop_first()),
            });
            rest = rest.drop_first();
        }
        match item {
            Some(rec) => {
                records.push(rec);
                assert(records@.map_values(|x: csv::StringRecord| record_fields(x)) =~= before.push(first->0));
                assert(before.push(first->0) + readable_rows(rest) =~= before + (seq![first->0] + readable_rows(rest)));
            },
            None => {
                assert(records@.map_values(|x: csv::StringRecord| record_fields(x)) =~= before);
            },
        }
    }
    assert(readable_rows(rest) =~= Seq::<Seq<Seq<char>>>::empty());
    assert(records@.map_values(|x: csv::StringRecord| record_fields(x)) =~= import_rows(content@, config.has_headers));
    collect_station_data(records.as_slice(), config, line_groups)
}

/// A departure of a line set by hand: when it leaves (seconds from the
/// timetable's base date), between which nodes it runs, on which days, and
/// how it repeats (seconds).
pub struct ManualDeparture {
    pub id: u128,
    pub time: i64,
    pub from_station: usize,
    pub to_station: usize,
    pub days_of_week: DaysOfWeek,
    pub train_number: Option<String>,
    pub repeat_interval: Option<i64>,
    pub repeat_until: Option<i64>,
}

/// The endpoints of segment `e`, if the network has it.
pub open spec fn edge_ends(g: RouteGraph, e: usize) -> Option<(usize, usize)> {
    if e < g.edges@.len() {
        Some((g.edges@[e as int].source, g.edges@[e as int].target))
    } else {
        None
    }
}

/// Where a route starts and ends: at the end of its first segment that the
/// second segment does not share, and at the end of its last segment that the
/// one before does not share (the first segment's source and the last one's
/// target for a route of one segment). `None` for an empty route or one whose
/// segments the network does not have.
pub open spec fn departure_endpoints(route: Seq<RouteSegment>, g: RouteGraph) -> Option<(usize, usize)> {
    let n = route.len();
    if n == 0 {
        None
    } else {
        let first = edge_ends(g, route[0].edge_index);
        let second = if n > 1 { edge_ends(g, route[1].edge_index) } else { first };
        let last = edge_ends(g, route[n - 1].edge_index);
        let before_last = if n > 1 { edge_ends(g, route[n - 2].edge_index) } else { last };
        match (first, second, last, before_last) {
            (Some((f1, t1)), Some((f2, t2)), Some((fl, tl)), Some((fs, ts))) => {
                let from = if n > 1 {
                    if f1 == f2 || f1 == t2 { t1 } else { f1 }
                } else {
                    f1
                };
                let to = if n > 1 {
                    if fl == fs || fl == ts { tl } else { fl }
                } else {
                    tl
                };
                Some((from, to))
            },
            _ => None,
        }
    }
}

/// A fresh random identifier from `uuid::Uuid::new_v4`, as its 128-bit value.
/// Nothing is stated of the value: it is random.
#[verifier::external_body]
fn new_departure_id() -> u128 {
    uuid::Uuid::new_v4().as_u128()
}

/// The stations a manual departure over `route` runs between (see
/// `departure_endpoints`).
pub fn manual_departure_stations(route: &[RouteSegment], graph: &RouteGraph) -> (r: Option<(usize, usize)>)
    ensures
        r == departure_endpoints(route@, *graph),
{
    let n = route.len();
    if n == 0 {
        return None;
    }
    let first = graph.get_track_endpoints(route[0].edge_index);
    let second = if n > 1 { graph.get_track_endpoints(route[1].edge_index) } else { first };
    let last = graph.get_track_endpoints(route[n - 1].edge_index);
    let before_last = if n > 1 { graph.get_track_endpoints(route[n - 2].edge_index) } else { last };
    match (first, second, last, before_last) {
        (Some((f1, t1)), Some((f2, t2)), Some((fl, tl)), Some((fs, ts))) => {
            let from = if n > 1 {
                if f1 == f2 || f1 == t2 { t1 } else { f1 }
            } else {
                f1
            };
            let to = if n > 1 {
                if fl == fs || fl == ts { tl } else { fl }
            } else {
                tl
            };
            Some((from, to))
        },
        _ => None,
    }
}

/// A manual departure at `departure_time` over `route`: between the route's
/// endpoints (see `departure_endpoints`), on every day, without train number
/// or repetition, under a fresh random id. `None` when the route has no
/// endpoints.
pub fn create_manual_departure(route: &[RouteSegment], graph: &RouteGraph, departure_time: i64) -> (r: Option<ManualDeparture>)
    ensures
        match r {
            Some(d) => {
                &&& departure_endpoints(route@, *graph) == Some((d.from_station, d.to_station))
                &&& d.time == departure_time
                &&& d.days_of_week.spec_bits() == all_days_bits()
                &&& d.train_number is None
                &&& d.repeat_interval is None
                &&& d.repeat_until is None
            },
            None => departure_endpoints(route@, *graph) is None,
        },
{
    match manual_departure_stations(route, graph) {
        Some((from_station, to_station)) => Some(ManualDeparture {
            id: new_departure_id(),
            time: departure_time,
            from_station,
            to_station,
            days_of_week: DaysOfWeek::default(),
            train_number: None,
            repeat_interval: None,
            repeat_until: None,
        }),
        None => None,
    }
}
} // verus!

