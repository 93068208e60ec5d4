//! Reading the runs of a NIMBY Rails export for one line: where the line
//! turns around, at what time the return journey of a run leaves, and which
//! runs go forward, back, or only part of the way.

use vstd::prelude::*;
use crate::nimby::{
    NimbyTrackArea, normalize_platform_name, normalized_platform_spec,
    NimbyRun, NimbySchedule, RunType, run_type_spec, classify_run, DirectionSchedule, fits_pattern_spec,
    fits_frequency_pattern, has_key, day_listed, in_day, schedule_in_day, day_index, time_of_day, counted,
    raw_has_time, raw_gives, frequency_of_sorted, first_departure_spec, lemma_finalized_in_day,
    NimbyLineSummary, nimby_color_spec, nimby_color_sliceable, parse_nimby_color,
};
use crate::order::strictly_increasing;
use crate::days_of_week::DaysOfWeek;
use crate::line::{RouteDirection, ScheduleMode};
use crate::text::{chars_of, contains_chars, has_infix, has_prefix, starts_with_chars, str_eq};

verus! {

/// A stop of a line as the schedule import reads it: the station it serves
/// and whether that station is a depot.
#[derive(Debug, Clone)]
pub struct LineStop {
    pub station_id: String,
    pub is_depot: bool,
}

/// The station id NIMBY gives waypoints.
pub open spec fn waypoint_id() -> Seq<char> {
    seq!['0', 'x', '0']
}

/// The mark in a station name that makes it a depot.
pub open spec fn depot_marker() -> Seq<char> {
    seq!['[', 'D', 'E', 'P', ']']
}

/// A stop at a real station: neither a waypoint nor a depot.
pub open spec fn real_stop(s: LineStop) -> bool {
    s.station_id@ != waypoint_id() && !s.is_depot
}

/// Whether a station with this name is a depot (its name holds `[DEP]`).
pub fn is_depot_name(name: &str) -> (r: bool)
    ensures
        r == has_infix(name@, depot_marker()),
{
    let marker = chars_of("[DEP]");
    proof {
        reveal_strlit("[DEP]");
    }
    assert(marker@ =~= depot_marker());
    contains_chars(chars_of(name).as_slice(), marker.as_slice())
}

/// Whether a stop is at a real station.
pub fn is_real_stop(stop: &LineStop) -> (r: bool)
    ensures
        r == real_stop(*stop),
{
    proof {
        reveal_strlit("0x0");
    }
    assert("0x0"@ =~= waypoint_id());
    !str_eq(stop.station_id.as_str(), "0x0") && !stop.is_depot
}

/// Positions of the real stops among the first `n` stops, in order.
pub open spec fn real_positions(stops: Seq<LineStop>, n: int) -> Seq<usize>
    decreases n,
{
    if n <= 0 {
        Seq::empty()
    } else {
        let p = real_positions(stops, n - 1);
        if real_stop(stops[n - 1]) {
            p.push((n - 1) as usize)
        } else {
            p
        }
    }
}

/// The station ids at the given positions.
pub open spec fn ids_at(stops: Seq<LineStop>, pos: Seq<usize>) -> Seq<Seq<char>> {
    pos.map_values(|p: usize| stops[p as int].station_id@)
}

/// First index at or after `i` whose id already occurred before it.
pub open spec fn first_repeat(ids: Seq<Seq<char>>, i: int) -> Option<int>
    decreases ids.len() - i,
{
    if i < 0 || i >= ids.len() {
        None
    } else if exists|k: int| 0 <= k < i && ids[k] == ids[i] {
        Some(i)
    } else {
        first_repeat(ids, i + 1)
    }
}

/// The turnaround of a line: among its real stops (when it has at least three
/// stops and three real ones), the stop just before the first station that
/// is visited a second time.
pub open spec fn turnaround_spec(stops: Seq<LineStop>) -> Option<usize> {
    if stops.len() < 3 {
        None
    } else {
        let pos = real_positions(stops, stops.len() as int);
        if pos.len() < 3 {
            None
        } else {
            match first_repeat(ids_at(stops, pos), 0) {
                Some(i) => if i > 0 { Some(pos[i - 1]) } else { None },
                None => None,
            }
        }
    }
}

proof fn lemma_real_positions_bounds(stops: Seq<LineStop>, n: int)
    requires
        0 <= n <= stops.len(),
    ensures
        forall|k: int| 0 <= k < real_positions(stops, n).len() ==> #[trigger] real_positions(stops, n)[k] < n,
        real_positions(stops, n).len() <= n,
    decreases n,
{
    if n > 0 {
        lemma_real_positions_bounds(stops, n - 1);
    }
}

/// Detect the turnaround stop of a line (see `turnaround_spec`).
pub fn detect_turnaround(stops: &[LineStop]) -> (r: Option<usize>)
    ensures
        r == turnaround_spec(stops@),
{
    if stops.len() < 3 {
        return None;
    }
    let ghost s = stops@;
    let mut pos: Vec<usize> = Vec::new();
    let mut i: usize = 0;
    while i < stops.len()
        invariant
            s == stops@,
            i <= s.len(),
            pos@ == real_positions(s, i as int),
        decreases s.len() - i,
    {
        if is_real_stop(&stops[i]) {
            pos.push(i);
        }
        i = i + 1;
    }
    proof {
        lemma_real_positions_bounds(s, s.len() as int);
    }
    if pos.len() < 3 {
        return None;
    }
    let ghost ids = ids_at(s, pos@);
    let mut j: usize = 0;
    while j < pos.len()
        invariant
            s == stops@,
            ids == ids_at(s, pos@),
            pos@ == real_positions(s, s.len() as int),
            forall|k: int| 0 <= k < pos@.len() ==> #[trigger] pos@[k] < s.len(),
            pos@.len() >= 3,
            s.len() >= 3,
            j <= pos@.len(),
            first_repeat(ids, 0) == first_repeat(ids, j as int),
        decreases pos.len() - j,
    {
        let pj = pos[j];
        let mut k: usize = 0;
        while k < j
            invariant
                s == stops@,
                ids == ids_at(s, pos@),
                pos@ == real_positions(s, s.len() as int),
                first_repeat(ids, 0) == first_repeat(ids, j as int),
                pos@.len() >= 3,
                s.len() >= 3,
                forall|q: int| 0 <= q < pos@.len() ==> #[trigger] pos@[q] < s.len(),
                j < pos@.len(),
                pj == pos@[j as int],
                k <= j,
                forall|q: int| 0 <= q < k ==> ids[q] != ids[j as int],
            decreases j - k,
        {
            let pk = pos[k];
            if str_eq(stops[pk].station_id.as_str(), stops[pj].station_id.as_str()) {
                assert(ids[k as int] == ids[j as int]);
                assert(first_repeat(ids, j as int) == Some(j as int));
                if j > 0 {
                    return Some(pos[j - 1]);
                }
                return None;
            }
            k = k + 1;
        }
        assert(!(exists|q: int| 0 <= q < j && ids[q] == ids[j as int]));
        j = j + 1;
    }
    None
}

/// The departure time recorded for stop `k` of a run (the times alternate
/// arrival, departure), if the run has it.
pub open spec fn departure_at(ad: Seq<i64>, k: int) -> Option<i64> {
    if 0 <= 2 * k + 1 < ad.len() {
        Some(ad[2 * k + 1])
    } else {
        None
    }
}

/// The departure at the first real stop at or after `j` for which the run
/// records one.
pub open spec fn first_real_departure(stops: Seq<LineStop>, ad: Seq<i64>, j: int) -> Option<i64>
    decreases stops.len() - j,
{
    if j < 0 || j >= stops.len() {
        None
    } else if real_stop(stops[j]) && departure_at(ad, j) is Some {
        departure_at(ad, j)
    } else {
        first_real_departure(stops, ad, j + 1)
    }
}

/// Return departure of a full-loop run: at the turnaround when it is a real
/// station with a recorded departure, else at the first real stop after it
/// with one.
pub open spec fn full_loop_return_spec(ad: Seq<i64>, turnaround: Option<usize>, stops: Seq<LineStop>) -> Option<i64> {
    match turnaround {
        None => None,
        Some(t) => if t >= stops.len() {
            None
        } else if real_stop(stops[t as int]) && departure_at(ad, t as int) is Some {
            departure_at(ad, t as int)
        } else {
            first_real_departure(stops, ad, t + 1)
        },
    }
}

/// Index of the first real stop at or after `j`.
pub open spec fn first_real_from(stops: Seq<LineStop>, j: int) -> Option<int>
    decreases stops.len() - j,
{
    if j < 0 || j >= stops.len() {
        None
    } else if real_stop(stops[j]) {
        Some(j)
    } else {
        first_real_from(stops, j + 1)
    }
}

/// Return departure of a return-only run: its times start at the stop where
/// it enters, so the departure at the first real stop from there is read at
/// that stop's offset from the entry stop.
pub open spec fn return_only_spec(ad: Seq<i64>, enter: int, stops: Seq<LineStop>) -> Option<i64> {
    match first_real_from(stops, enter) {
        Some(j) => departure_at(ad, j - enter),
        None => None,
    }
}

/// The return departure of a run that covers the whole loop.
pub fn get_return_departure_from_full_loop(run: &NimbyRun, turnaround_idx: Option<usize>, stops: &[LineStop]) -> (r: Option<i64>)
    requires
        2 * stops@.len() + 1 <= usize::MAX,
    ensures
        r == full_loop_return_spec(run.arrival_departure@, turnaround_idx, stops@),
{
    let ghost ad = run.arrival_departure@;
    let t = match turnaround_idx {
        Some(t) => t,
        None => {
            return None;
        },
    };
    if t >= stops.len() {
        return None;
    }
    if is_real_stop(&stops[t]) {
        let dep_idx = t * 2 + 1;
        if dep_idx < run.arrival_departure.len() {
            return Some(run.arrival_departure[dep_idx]);
        }
    }
    let mut j: usize = t + 1;
    while j < stops.len()
        invariant
            ad == run.arrival_departure@,
            2 * stops@.len() + 1 <= usize::MAX,
            t < j <= stops@.len(),
            turnaround_idx == Some(t),
            !(real_stop(stops@[t as int]) && departure_at(ad, t as int) is Some),
            first_real_departure(stops@, ad, t + 1) == first_real_departure(stops@, ad, j as int),
        decreases stops.len() - j,
    {
        if is_real_stop(&stops[j]) {
            let dep_idx = j * 2 + 1;
            if dep_idx < run.arrival_departure.len() {
                return Some(run.arrival_departure[dep_idx]);
            }
        }
        j = j + 1;
    }
    None
}

/// The return departure of a run that only makes the return journey.
pub fn get_return_departure_from_return_only(run: &NimbyRun, stops: &[LineStop]) -> (r: Option<i64>)
    requires
        2 * stops@.len() + 1 <= usize::MAX,
    ensures
        r == return_only_spec(run.arrival_departure@, run.enter_stop_idx as int, stops@),
{
    let enter = run.enter_stop_idx;
    let mut j: usize = enter;
    while j < stops.len()
        invariant
            2 * stops@.len() + 1 <= usize::MAX,
            enter <= j,
            enter == run.enter_stop_idx,
            first_real_from(stops@, enter as int) == first_real_from(stops@, j as int),
        decreases stops.len() - j,
    {
        if is_real_stop(&stops[j]) {
            let dep_idx = (j - enter) * 2 + 1;
            if dep_idx < run.arrival_departure.len() {
                return Some(run.arrival_departure[dep_idx]);
            }
            return None;
        }
        j = j + 1;
    }
    None
}

/// The departure a run starts with (its first recorded departure, zero when
/// it has none).
pub open spec fn run_start(ad: Seq<i64>) -> i64 {
    if ad.len() > 1 { ad[1] } else { 0 }
}

/// A value as a sequence of at most one element.
pub open spec fn opt_seq(o: Option<i64>) -> Seq<i64> {
    match o {
        Some(v) => seq![v],
        None => Seq::empty(),
    }
}

/// What a run adds: departures to the forward schedule, departures to the
/// return schedule, and whether it is kept aside as a partial run.
pub open spec fn run_effect(run: NimbyRun, turnaround: Option<usize>, max_stop_idx: int, stops: Seq<LineStop>) -> (Seq<i64>, Seq<i64>, bool) {
    let ad = run.arrival_departure@;
    match run_type_spec(run.enter_stop_idx as int, run.exit_stop_idx as int, turnaround, max_stop_idx) {
        RunType::FullLoop => (seq![run_start(ad)], opt_seq(full_loop_return_spec(ad, turnaround, stops)), false),
        RunType::ForwardOnly => (seq![run_start(ad)], Seq::empty(), false),
        RunType::ReturnOnly => (Seq::empty(), opt_seq(return_only_spec(ad, run.enter_stop_idx as int, stops)), false),
        RunType::Partial => (Seq::empty(), Seq::empty(), true),
    }
}

/// Two schedules agree on everything but their raw departures.
pub open spec fn same_summary(a: DirectionSchedule, b: DirectionSchedule) -> bool {
    &&& a.day_table() == b.day_table()
    &&& a.times() == b.times()
    &&& a.wf() == b.wf()
    &&& a.spec_first() == b.spec_first()
    &&& a.spec_last() == b.spec_last()
    &&& a.spec_frequency() == b.spec_frequency()
    &&& a.spec_days() == b.spec_days()
}

/// A schedule that has only been collected into: no times, no table and no
/// summary yet.
pub open spec fn fresh_schedule(s: DirectionSchedule) -> bool {
    &&& s.wf()
    &&& s.times().len() == 0
    &&& s.day_table().len() == 0
    &&& s.spec_first() is None
    &&& s.spec_last() is None
    &&& s.spec_frequency() is None
    &&& s.spec_days().spec_bits() == 0
}

/// Where a run sits in the export: schedule, shift and run index.
pub type RunRef = (usize, usize, usize);

/// Process one run: add its departures to the forward and return schedules,
/// or keep its reference aside when it is partial.
pub fn process_run(
    run: &NimbyRun,
    at: RunRef,
    turnaround_idx: Option<usize>,
    max_stop_idx: usize,
    stops: &[LineStop],
    forward_schedule: &mut DirectionSchedule,
    return_schedule: &mut DirectionSchedule,
    partial_runs: &mut Vec<RunRef>,
)
    requires
        2 * stops@.len() + 1 <= usize::MAX,
        turnaround_idx matches Some(t) ==> t + 2 <= usize::MAX,
    ensures
        ({
            let (f, b, p) = run_effect(*run, turnaround_idx, max_stop_idx as int, stops@);
            &&& final(forward_schedule).raw() == old(forward_schedule).raw() + f
            &&& final(return_schedule).raw() == old(return_schedule).raw() + b
            &&& final(partial_runs)@ == if p { old(partial_runs)@.push(at) } else { old(partial_runs)@ }
        }),
        same_summary(*final(forward_schedule), *old(forward_schedule)),
        same_summary(*final(return_schedule), *old(return_schedule)),
{
    let departure_time: i64 = if run.arrival_departure.len() > 1 { run.arrival_departure[1] } else { 0 };
    let run_type = classify_run(run, turnaround_idx, max_stop_idx);
    let ghost f0 = forward_schedule.raw();
    let ghost b0 = return_schedule.raw();
    match run_type {
        RunType::FullLoop => {
            forward_schedule.add_departure(departure_time);
            match get_return_departure_from_full_loop(run, turnaround_idx, stops) {
                Some(d) => {
                    return_schedule.add_departure(d);
                },
                None => {},
            }
        },
        RunType::ForwardOnly => {
            forward_schedule.add_departure(departure_time);
        },
        RunType::ReturnOnly => {
            match get_return_departure_from_return_only(run, stops) {
                Some(d) => {
                    return_schedule.add_departure(d);
                },
                None => {},
            }
        },
        RunType::Partial => {
            partial_runs.push(at);
        },
    }
    assert(forward_schedule.raw() =~= f0 + run_effect(*run, turnaround_idx, max_stop_idx as int, stops@).0);
    assert(return_schedule.raw() =~= b0 + run_effect(*run, turnaround_idx, max_stop_idx as int, stops@).1);
}

/// References to the runs of the first shifts of schedule `s`, in order.
pub open spec fn shift_run_refs(shifts: Seq<crate::nimby::NimbyShift>, s: usize) -> Seq<RunRef>
    decreases shifts.len(),
{
    if shifts.len() == 0 {
        Seq::empty()
    } else {
        let h = (shifts.len() - 1) as usize;
        shift_run_refs(shifts.drop_last(), s) + Seq::new(shifts.last().runs@.len(), |r: int| (s, h, r as usize))
    }
}

/// References to every run of the schedules, schedule by schedule, shift by
/// shift.
pub open spec fn run_refs(scheds: Seq<NimbySchedule>) -> Seq<RunRef>
    decreases scheds.len(),
{
    if scheds.len() == 0 {
        Seq::empty()
    } else {
        run_refs(scheds.drop_last()) + shift_run_refs(scheds.last().shifts@, (scheds.len() - 1) as usize)
    }
}

/// The run a reference points to.
pub open spec fn run_at(scheds: Seq<NimbySchedule>, r: RunRef) -> NimbyRun {
    scheds[r.0 as int].shifts@[r.1 as int].runs@[r.2 as int]
}

/// What the runs of the line among `refs` add, in order: forward departures,
/// return departures and the partial runs.
pub open spec fn collected(
    scheds: Seq<NimbySchedule>,
    refs: Seq<RunRef>,
    line_id: Seq<char>,
    turnaround: Option<usize>,
    max_stop_idx: int,
    stops: Seq<LineStop>,
) -> (Seq<i64>, Seq<i64>, Seq<RunRef>)
    decreases refs.len(),
{
    if refs.len() == 0 {
        (Seq::empty(), Seq::empty(), Seq::empty())
    } else {
        let prev = collected(scheds, refs.drop_last(), line_id, turnaround, max_stop_idx, stops);
        let r = refs.last();
        let run = run_at(scheds, r);
        if run.line_id@ == line_id {
            let (f, b, p) = run_effect(run, turnaround, max_stop_idx, stops);
            (prev.0 + f, prev.1 + b, if p { prev.2.push(r) } else { prev.2 })
        } else {
            prev
        }
    }
}

/// Collect the runs of one line from all schedules: its forward and return
/// departures (not yet finalized) and the references of its partial runs.
pub fn collect_runs_for_line(
    schedules: &[NimbySchedule],
    line_id: &str,
    turnaround_idx: Option<usize>,
    max_stop_idx: usize,
    stops: &[LineStop],
) -> (r: (DirectionSchedule, DirectionSchedule, Vec<RunRef>))
    requires
        2 * stops@.len() + 1 <= usize::MAX,
        turnaround_idx matches Some(t) ==> t + 2 <= usize::MAX,
    ensures
        ({
            let c = collected(schedules@, run_refs(schedules@), line_id@, turnaround_idx, max_stop_idx as int, stops@);
            &&& r.0.raw() == c.0
            &&& r.1.raw() == c.1
            &&& r.2@ == c.2
        }),
        fresh_schedule(r.0),
        fresh_schedule(r.1),
{
    let ghost sc = schedules@;
    let ghost lid = line_id@;
    let mut forward_schedule = DirectionSchedule::new();
    let mut return_schedule = DirectionSchedule::new();
    let mut partial_runs: Vec<RunRef> = Vec::new();
    let mut si: usize = 0;
    while si < schedules.len()
        invariant
            sc == schedules@,
            lid == line_id@,
            2 * stops@.len() + 1 <= usize::MAX,
            turnaround_idx matches Some(t) ==> t + 2 <= usize::MAX,
            si <= sc.len(),
            ({
                let c = collected(sc, run_refs(sc.take(si as int)), lid, turnaround_idx, max_stop_idx as int, stops@);
                &&& forward_schedule.raw() == c.0
                &&& return_schedule.raw() == c.1
                &&& partial_runs@ == c.2
            }),
            fresh_schedule(forward_schedule),
            fresh_schedule(return_schedule),
        decreases sc.len() - si,
    {
        let ghost done = run_refs(sc.take(si as int));
        let shifts = &schedules[si].shifts;
        let ghost sh = shifts@;
        let mut hi: usize = 0;
        while hi < shifts.len()
            invariant
                sc == schedules@,
                lid == line_id@,
                2 * stops@.len() + 1 <= usize::MAX,
                turnaround_idx matches Some(t) ==> t + 2 <= usize::MAX,
                si < sc.len(),
                sh == sc[si as int].shifts@,
                shifts@ == sh,
                done == run_refs(sc.take(si as int)),
                hi <= sh.len(),
                ({
                    let c = collected(sc, done + shift_run_refs(sh.take(hi as int), si), lid, turnaround_idx, max_stop_idx as int, stops@);
                    &&& forward_schedule.raw() == c.0
                    &&& return_schedule.raw() == c.1
                    &&& partial_runs@ == c.2
                }),
                fresh_schedule(forward_schedule),
                fresh_schedule(return_schedule),
            decreases sh.len() - hi,
        {
            let runs = &shifts[hi].runs;
            let ghost before = done + shift_run_refs(sh.take(hi as int), si);
            let ghost mk = |r: int| (si, hi, r as usize);
            let mut ri: usize = 0;
            while ri < runs.len()
                invariant
                    sc == schedules@,
                    lid == line_id@,
                    2 * stops@.len() + 1 <= usize::MAX,
                    turnaround_idx matches Some(t) ==> t + 2 <= usize::MAX,
                    si < sc.len(),
                    hi < sh.len(),
                    sh == sc[si as int].shifts@,
                    runs@ == sh[hi as int].runs@,
                    mk == (|r: int| (si, hi, r as usize)),
                    ri <= runs@.len(),
                    ({
                        let c = collected(sc, before + Seq::new(ri as nat, mk), lid, turnaround_idx, max_stop_idx as int, stops@);
                        &&& forward_schedule.raw() == c.0
                        &&& return_schedule.raw() == c.1
                        &&& partial_runs@ == c.2
                    }),
                    fresh_schedule(forward_schedule),
                    fresh_schedule(return_schedule),
                decreases runs@.len() - ri,
            {
                let ghost refs = before + Seq::new(ri as nat, mk);
                let ghost next = before + Seq::new((ri + 1) as nat, mk);
                proof {
                    assert(next.drop_last() =~= refs);
                    assert(next.last() == (si, hi, ri));
                    assert(run_at(sc, (si, hi, ri)) == runs@[ri as int]);
                }
                let run = &runs[ri];
                if str_eq(run.line_id.as_str(), line_id) {
                    process_run(
                        run,
                        (si, hi, ri),
                        turnaround_idx,
                        max_stop_idx,
                        stops,
                        &mut forward_schedule,
                        &mut return_schedule,
                        &mut partial_runs,
                    );
                }
                ri = ri + 1;
            }
            proof {
                let t = sh.take(hi + 1);
                assert(t.drop_last() =~= sh.take(hi as int));
                assert(t.last() == sh[hi as int]);
                assert(Seq::new(runs@.len(), mk) =~= Seq::new(t.last().runs@.len(), |r: int| (si, hi, r as usize)));
                assert(done + shift_run_refs(t, si) =~= before + Seq::new(runs@.len(), mk));
            }
            hi = hi + 1;
        }
        proof {
            let t = sc.take(si + 1);
            assert(t.drop_last() =~= sc.take(si as int));
            assert(t.last().shifts@ == sh);
            assert(sh.take(sh.len() as int) =~= sh);
            assert(run_refs(t) =~= done + shift_run_refs(sh, si));
        }
        si = si + 1;
    }
    assert(sc.take(sc.len() as int) =~= sc);
    (forward_schedule, return_schedule, partial_runs)
}

/// A departure to add to a line by hand, with the days it runs on and the
/// route it runs on.
#[derive(Debug, Clone, Copy)]
pub struct ManualDeparturePlan {
    pub time: i64,
    pub days: DaysOfWeek,
    pub direction: RouteDirection,
}

/// How a line's timetable is set from its collected schedules.
#[derive(Debug, Clone)]
pub struct SchedulePlan {
    pub schedule_mode: ScheduleMode,
    /// The regular frequency (seconds), when the timetable is regular.
    pub frequency: Option<i64>,
    /// The days the line runs on, when the line has any departure.
    pub days_of_week: Option<DaysOfWeek>,
    pub first_departure: Option<i64>,
    pub last_departure: Option<i64>,
    pub return_first_departure: Option<i64>,
    pub return_last_departure: Option<i64>,
    /// Departures that do not follow the regular pattern (or all of them when
    /// there is none), forward ones first.
    pub manual_departures: Vec<ManualDeparturePlan>,
    /// Whether the partial runs are to be added by hand too.
    pub add_partial_runs: bool,
}

/// Which departures of a direction are listed by hand: those that miss the
/// pattern `(first, frequency)`, or all of them when there is no pattern.
pub open spec fn keep_pred(pattern: Option<(i64, i64)>) -> spec_fn(i64) -> bool {
    |t: i64| match pattern {
        Some(p) => !fits_pattern_spec(t as int, p.0 as int, p.1 as int),
        None => true,
    }
}

/// The listed departures of a direction, tagged with the direction.
pub open spec fn listed(times: Seq<i64>, pattern: Option<(i64, i64)>, dir: RouteDirection) -> Seq<(i64, RouteDirection)> {
    times.filter(keep_pred(pattern)).map_values(|t: i64| (t, dir))
}

/// The frequency of the line: the forward one, else the return one.
pub open spec fn base_frequency(fwd: DirectionSchedule, ret: DirectionSchedule) -> Option<i64> {
    match fwd.spec_frequency() {
        Some(f) => Some(f),
        None => ret.spec_frequency(),
    }
}

/// The departures listed by hand, in order: with a frequency, the forward and
/// then the return departures that miss the pattern from each direction's
/// first departure; without one, every forward and then every return departure.
pub open spec fn planned_manual(fwd: DirectionSchedule, ret: DirectionSchedule) -> Seq<(i64, RouteDirection)> {
    match base_frequency(fwd, ret) {
        Some(f) => (match fwd.spec_first() {
            Some(a) => listed(fwd.times(), Some((a, f)), RouteDirection::Forward),
            None => Seq::empty(),
        }) + (match ret.spec_first() {
            Some(a) => listed(ret.times(), Some((a, f)), RouteDirection::Return),
            None => Seq::empty(),
        }),
        None => listed(fwd.times(), None, RouteDirection::Forward) + listed(ret.times(), None, RouteDirection::Return),
    }
}

/// The days of `d` are those the schedule's table gives time `t`, or all
/// seven when the table does not have it.
pub open spec fn days_match(d: DaysOfWeek, table: Seq<(i64, DaysOfWeek)>, t: i64) -> bool {
    &&& has_key(table, t) ==> forall|e: int| 0 <= e < 7 ==> (d.has_day(e) <==> day_listed(table, t, e))
    &&& !has_key(table, t) ==> d.spec_bits() == 0x7f
}

/// A planned departure is the expected one, with the days its direction's
/// schedule gives it.
pub open spec fn entry_ok(m: ManualDeparturePlan, e: (i64, RouteDirection), fwd: DirectionSchedule, ret: DirectionSchedule) -> bool {
    &&& m.time == e.0
    &&& m.direction == e.1
    &&& days_match(m.days, if e.1 == RouteDirection::Forward { fwd.day_table() } else { ret.day_table() }, e.0)
}

/// Append the listed departures of one direction.
fn add_direction(
    out: &mut Vec<ManualDeparturePlan>,
    fwd: &DirectionSchedule,
    ret: &DirectionSchedule,
    dir: RouteDirection,
    pattern: Option<(i64, i64)>,
)
    requires
        fwd.wf(),
        ret.wf(),
        schedule_in_day(*fwd),
        schedule_in_day(*ret),
        pattern matches Some(p) ==> in_day(p.0),
    ensures
        ({
            let s = if dir == RouteDirection::Forward { *fwd } else { *ret };
            let add = listed(s.times(), pattern, dir);
            let n = old(out)@.len();
            &&& final(out)@.len() == n + add.len()
            &&& final(out)@.take(n as int) == old(out)@
            &&& forall|k: int| 0 <= k < add.len() ==> entry_ok(#[trigger] final(out)@[n + k], add[k], *fwd, *ret)
        }),
{
    let s = if dir == RouteDirection::Forward { fwd } else { ret };
    let ghost pred = keep_pred(pattern);
    let ghost n = out@.len();
    let ghost out0 = out@;
    let times = s.departures();
    let mut i: usize = 0;
    while i < times.len()
        invariant
            fwd.wf(),
            ret.wf(),
            schedule_in_day(*fwd),
            schedule_in_day(*ret),
            pattern matches Some(p) ==> in_day(p.0),
            s == (if dir == RouteDirection::Forward { fwd } else { ret }),
            times@ == s.times(),
            pred == keep_pred(pattern),
            n == out0.len(),
            i <= times@.len(),
            out@.len() == n + times@.take(i as int).filter(pred).len(),
            out@.take(n as int) == out0,
            forall|k: int| 0 <= k < times@.take(i as int).filter(pred).len() ==> entry_ok(
                #[trigger] out@[n + k],
                (times@.take(i as int).filter(pred)[k], dir),
                *fwd,
                *ret,
            ),
        decreases times@.len() - i,
    {
        let t = times[i];
        proof {
            let tk = times@.take(i + 1);
            assert(tk.drop_last() =~= times@.take(i as int));
            assert(tk.last() == t);
            reveal(Seq::filter);
            assert(in_day(times@[i as int]));
        }
        let keep = match pattern {
            Some((a, f)) => !fits_frequency_pattern(t, a, f),
            None => true,
        };
        let ghost before = out@;
        if keep {
            let days = s.get_days_for_departure(t);
            out.push(ManualDeparturePlan { time: t, days, direction: dir });
            proof {
                assert(out@.take(n as int) =~= before.take(n as int));
            }
        }
        i = i + 1;
    }
    proof {
        assert(times@.take(times@.len() as int) =~= times@);
    }
}

/// The plan for a line's timetable from its finalized schedules (see
/// `plan_schedule`).
pub open spec fn plan_ok(r: SchedulePlan, forward: DirectionSchedule, ret: DirectionSchedule, has_partial_runs: bool) -> bool {
    let nothing = forward.times().len() == 0 && ret.times().len() == 0 && !has_partial_runs;
    let base = base_frequency(forward, ret);
    let exp = if nothing { Seq::empty() } else { planned_manual(forward, ret) };
    &&& r.add_partial_runs == !nothing
    &&& r.schedule_mode == (if !nothing && base is Some { ScheduleMode::Auto } else { ScheduleMode::Manual })
    &&& r.frequency == (if nothing { None } else { base })
    &&& (nothing <==> r.days_of_week is None)
    &&& (r.days_of_week matches Some(d) ==> d.spec_bits() == forward.spec_days().spec_bits() | ret.spec_days().spec_bits())
    &&& r.first_departure == (if !nothing && base is Some { forward.spec_first() } else { None })
    &&& r.last_departure == (if !nothing && base is Some { forward.spec_last() } else { None })
    &&& r.return_first_departure == (if !nothing && base is Some { ret.spec_first() } else { None })
    &&& r.return_last_departure == (if !nothing && base is Some { ret.spec_last() } else { None })
    &&& r.manual_departures@.len() == exp.len()
    &&& forall|k: int| 0 <= k < exp.len() ==> entry_ok(#[trigger] r.manual_departures@[k], exp[k], forward, ret)
}

/// Plan a line's timetable from its finalized forward and return schedules
/// (see `planned_manual`): nothing at all when there are no departures and no
/// partial runs; otherwise the regular frequency when there is one (the
/// forward one first), the days as the union of both directions, the first
/// and last departures of both directions with a frequency, the departures to
/// add by hand, and the partial runs.
pub fn plan_schedule(forward: &DirectionSchedule, ret: &DirectionSchedule, has_partial_runs: bool) -> (r: SchedulePlan)
    requires
        forward.wf(),
        ret.wf(),
        schedule_in_day(*forward),
        schedule_in_day(*ret),
    ensures
        plan_ok(r, *forward, *ret, has_partial_runs),
{
    let mut manual: Vec<ManualDeparturePlan> = Vec::new();
    if forward.departures().len() == 0 && ret.departures().len() == 0 && !has_partial_runs {
        return SchedulePlan {
            schedule_mode: ScheduleMode::Manual,
            frequency: None,
            days_of_week: None,
            first_departure: None,
            last_departure: None,
            return_first_departure: None,
            return_last_departure: None,
            manual_departures: manual,
            add_partial_runs: false,
        };
    }
    let days = forward.days_of_week().union(ret.days_of_week());
    let base = match forward.frequency() {
        Some(f) => Some(f),
        None => ret.frequency(),
    };
    let ghost e1: Seq<(i64, RouteDirection)>;
    let ghost e2: Seq<(i64, RouteDirection)>;
    match base {
        Some(f) => {
            match forward.first_departure() {
                Some(a) => {
                    add_direction(&mut manual, forward, ret, RouteDirection::Forward, Some((a, f)));
                    proof { e1 = listed(forward.times(), Some((a, f)), RouteDirection::Forward); }
                },
                None => {
                    proof { e1 = Seq::empty(); }
                },
            }
            let ghost m1 = manual@;
            proof {
                assert forall|k: int| 0 <= k < e1.len() implies entry_ok(#[trigger] m1[k], e1[k], *forward, *ret) by {
                    assert(entry_ok(m1[0 + k], e1[k], *forward, *ret));
                }
            }
            match ret.first_departure() {
                Some(a) => {
                    add_direction(&mut manual, forward, ret, RouteDirection::Return, Some((a, f)));
                    proof { e2 = listed(ret.times(), Some((a, f)), RouteDirection::Return); }
                },
                None => {
                    proof { e2 = Seq::empty(); }
                },
            }
            proof {
                let exp = e1 + e2;
                let n1 = m1.len() as int;
                assert forall|k: int| 0 <= k < exp.len() implies entry_ok(#[trigger] manual@[k], exp[k], *forward, *ret) by {
                    if k < e1.len() {
                        assert(manual@.take(n1)[k] == manual@[k]);
                    } else {
                        assert(exp[k] == e2[k - e1.len()]);
                        assert(entry_ok(manual@[n1 + (k - e1.len())], e2[k - e1.len()], *forward, *ret));
                    }
                }
            }
            SchedulePlan {
                schedule_mode: ScheduleMode::Auto,
                frequency: Some(f),
                days_of_week: Some(days),
                first_departure: forward.first_departure(),
                last_departure: forward.last_departure(),
                return_first_departure: ret.first_departure(),
                return_last_departure: ret.last_departure(),
                manual_departures: manual,
                add_partial_runs: true,
            }
        },
        None => {
            add_direction(&mut manual, forward, ret, RouteDirection::Forward, None);
            let ghost m1 = manual@;
            proof {
                e1 = listed(forward.times(), None, RouteDirection::Forward);
                assert forall|k: int| 0 <= k < e1.len() implies entry_ok(#[trigger] m1[k], e1[k], *forward, *ret) by {
                    assert(entry_ok(m1[0 + k], e1[k], *forward, *ret));
                }
            }
            add_direction(&mut manual, forward, ret, RouteDirection::Return, None);
            proof {
                e2 = listed(ret.times(), None, RouteDirection::Return);
                let exp = e1 + e2;
                let n1 = m1.len() as int;
                assert forall|k: int| 0 <= k < exp.len() implies entry_ok(#[trigger] manual@[k], exp[k], *forward, *ret) by {
                    if k < e1.len() {
                        assert(manual@.take(n1)[k] == manual@[k]);
                    } else {
                        assert(exp[k] == e2[k - e1.len()]);
                        assert(entry_ok(manual@[n1 + (k - e1.len())], e2[k - e1.len()], *forward, *ret));
                    }
                }
            }
            SchedulePlan {
                schedule_mode: ScheduleMode::Manual,
                frequency: None,
                days_of_week: Some(days),
                first_departure: None,
                last_departure: None,
                return_first_departure: None,
                return_last_departure: None,
                manual_departures: manual,
                add_partial_runs: true,
            }
        },
    }
}

/// The departure a run starts with (its first recorded departure, zero when
/// it has none).
pub fn run_departure_time(run: &NimbyRun) -> (r: i64)
    ensures
        r == run_start(run.arrival_departure@),
{
    if run.arrival_departure.len() > 1 { run.arrival_departure[1] } else { 0 }
}

/// Whole days and time of day of an absolute time, both rounded toward zero
/// (Rust's `/` and `%` by 86400).
fn split_time(raw: i64) -> (r: (i64, i64))
    ensures
        r.0 == day_index(raw),
        r.1 == time_of_day(raw),
{
    if raw >= 0 {
        proof {
            vstd::arithmetic::div_mod::lemma_fundamental_div_mod(raw as int, 86400);
        }
        (raw / 86400, raw % 86400)
    } else {
        let q: i64 = -(raw + 1);
        let qd = q / 86400;
        let qm = q % 86400;
        proof {
            vstd::arithmetic::div_mod::lemma_fundamental_div_mod(q as int, 86400);
            let n = -(raw as int);
            assert(n == q + 1);
            if qm < 86399 {
                vstd::arithmetic::div_mod::lemma_fundamental_div_mod_converse(n, 86400, qd as int, qm + 1);
            } else {
                vstd::arithmetic::div_mod::lemma_fundamental_div_mod_converse(n, 86400, qd + 1, 0);
            }
        }
        if qm < 86399 {
            (-qd, -(qm + 1))
        } else {
            (-(qd + 1), 0)
        }
    }
}

/// The days a partial run departing at absolute time `t` runs on: its day
/// when it falls in the week, every day otherwise.
pub open spec fn run_day_bits(t: i64) -> u8 {
    if counted(t) { 1u8 << (day_index(t) as u8) } else { 0x7f }
}

/// Index of the first group with time `n`.
pub open spec fn group_pos(g: Seq<(i64, u8, usize)>, n: i64, i: int) -> Option<int>
    decreases g.len() - i,
{
    if i < 0 || i >= g.len() {
        None
    } else if g[i].0 == n {
        Some(i)
    } else {
        group_pos(g, n, i + 1)
    }
}

/// The partial runs departing at the given times, grouped by time of day in
/// order of first appearance: the time, the union of the runs' days, and the
/// index of the first run of the group.
pub open spec fn grouped_runs(ts: Seq<i64>) -> Seq<(i64, u8, usize)>
    decreases ts.len(),
{
    if ts.len() == 0 {
        Seq::empty()
    } else {
        let g = grouped_runs(ts.drop_last());
        let t = ts.last();
        let n = time_of_day(t) as i64;
        match group_pos(g, n, 0) {
            Some(p) => g.update(p, (n, g[p].1 | run_day_bits(t), g[p].2)),
            None => g.push((n, run_day_bits(t), (ts.len() - 1) as usize)),
        }
    }
}

/// A group of partial runs that leave at the same time of day.
#[derive(Debug, Clone, Copy)]
pub struct PartialRunGroup {
    pub time: i64,
    pub days: DaysOfWeek,
    /// Index of the group's first run; its stations and train name are the group's.
    pub first: usize,
}

proof fn lemma_group_pos_none(g: Seq<(i64, u8, usize)>, n: i64, i: int)
    requires
        0 <= i <= g.len(),
        forall|j: int| i <= j < g.len() ==> (#[trigger] g[j]).0 != n,
    ensures
        group_pos(g, n, i) is None,
    decreases g.len() - i,
{
    if i < g.len() {
        lemma_group_pos_none(g, n, i + 1);
    }
}

proof fn lemma_group_pos_at(g: Seq<(i64, u8, usize)>, n: i64, i: int, p: int)
    requires
        0 <= i <= p < g.len(),
        g[p].0 == n,
        forall|j: int| i <= j < p ==> (#[trigger] g[j]).0 != n,
    ensures
        group_pos(g, n, i) == Some(p),
    decreases p - i,
{
    if i < p {
        lemma_group_pos_at(g, n, i + 1, p);
    }
}

fn find_group(groups: &Vec<PartialRunGroup>, n: i64) -> (r: Option<usize>)
    ensures
        r matches Some(p) ==> p < groups@.len() && groups@[p as int].time == n
            && forall|j: int| 0 <= j < p ==> (#[trigger] groups@[j]).time != n,
        r is None ==> forall|j: int| 0 <= j < groups@.len() ==> (#[trigger] groups@[j]).time != n,
{
    let mut p: usize = 0;
    while p < groups.len()
        invariant
            p <= groups@.len(),
            forall|j: int| 0 <= j < p ==> (#[trigger] groups@[j]).time != n,
        decreases groups.len() - p,
    {
        if groups[p].time == n {
            return Some(p);
        }
        p = p + 1;
    }
    None
}

/// Group partial runs by the time of day they depart (see `grouped_runs`).
pub fn group_partial_runs(departure_times: &[i64]) -> (r: Vec<PartialRunGroup>)
    ensures
        r@.len() == grouped_runs(departure_times@).len(),
        forall|k: int| 0 <= k < r@.len() ==> {
            let g = #[trigger] grouped_runs(departure_times@)[k];
            &&& r@[k].time == g.0
            &&& r@[k].days.spec_bits() == g.1
            &&& r@[k].first == g.2
        },
{
    let ghost ts = departure_times@;
    let mut out: Vec<PartialRunGroup> = Vec::new();
    let mut i: usize = 0;
    while i < departure_times.len()
        invariant
            ts == departure_times@,
            i <= ts.len(),
            out@.len() == grouped_runs(ts.take(i as int)).len(),
            forall|k: int| 0 <= k < out@.len() ==> {
                let g = #[trigger] grouped_runs(ts.take(i as int))[k];
                &&& out@[k].time == g.0
                &&& out@[k].days.spec_bits() == g.1
                &&& out@[k].first == g.2
            },
        decreases ts.len() - i,
    {
        let t = departure_times[i];
        let ghost g0 = grouped_runs(ts.take(i as int));
        proof {
            let tk = ts.take(i + 1);
            assert(tk.drop_last() =~= ts.take(i as int));
            assert(tk.last() == t);
        }
        let (d, n) = split_time(t);
        let flag = if 0 <= d && d < 7 {
            match DaysOfWeek::from_index(d as usize) {
                Some(f) => f,
                None => DaysOfWeek::ALL_DAYS(),
            }
        } else {
            DaysOfWeek::ALL_DAYS()
        };
        assert(flag.spec_bits() == run_day_bits(t));
        let found = find_group(&out, n);
        proof {
            assert forall|k: int| 0 <= k < out@.len() implies (#[trigger] out@[k]).time == g0[k].0 by {}
        }
        match found {
            Some(p) => {
                proof {
                    assert forall|j: int| 0 <= j < p implies (#[trigger] g0[j]).0 != n by {
                        assert(out@[j].time == g0[j].0);
                    }
                    assert(out@[p as int].time == g0[p as int].0);
                    lemma_group_pos_at(g0, n, 0, p as int);
                }
                let old_g = out[p];
                let nd = old_g.days.union(flag);
                out.set(p, PartialRunGroup { time: n, days: nd, first: old_g.first });
            },
            None => {
                proof {
                    assert forall|j: int| 0 <= j < g0.len() implies (#[trigger] g0[j]).0 != n by {
                        assert(out@[j].time == g0[j].0);
                    }
                    lemma_group_pos_none(g0, n, 0);
                }
                out.push(PartialRunGroup { time: n, days: flag, first: i });
            },
        }
        i = i + 1;
    }
    assert(ts.take(ts.len() as int) =~= ts);
    out
}

/// What `finalize` makes of a schedule that was only collected into: the day
/// table holds exactly the counted raw departures by time of day and day,
/// the times are the table's times in increasing order, and the frequency,
/// first and last departure and days follow from them.
pub open spec fn finalized(s: DirectionSchedule) -> bool {
    &&& s.wf()
    &&& s.raw().len() == 0 ==> fresh_schedule(s)
    &&& s.raw().len() > 0 ==> {
        &&& forall|t: i64| has_key(s.day_table(), t) <==> raw_has_time(s.raw(), t)
        &&& forall|t: i64, e: int| day_listed(s.day_table(), t, e) <==> raw_gives(s.raw(), t, e)
        &&& strictly_increasing(s.times())
        &&& forall|t: i64| s.times().contains(t) <==> has_key(s.day_table(), t)
        &&& s.spec_frequency() == frequency_of_sorted(s.times())
        &&& s.spec_first() == first_departure_spec(s.times(), s.spec_frequency())
        &&& s.spec_last() == (if s.times().len() == 0 { None } else { Some(s.times().last()) })
        &&& forall|e: int| s.spec_days().has_day(e) <==> exists|t: i64| day_listed(s.day_table(), t, e)
    }
}

proof fn lemma_fresh_tables(s: DirectionSchedule)
    requires
        fresh_schedule(s),
    ensures
        forall|t: i64| !has_key(s.day_table(), t),
        forall|t: i64, e: int| !day_listed(s.day_table(), t, e),
{
}

fn finalize_collected(s: &mut DirectionSchedule)
    requires
        fresh_schedule(*old(s)),
    ensures
        final(s).raw() == old(s).raw(),
        finalized(*final(s)),
        schedule_in_day(*final(s)),
{
    proof {
        lemma_fresh_tables(*s);
    }
    s.finalize();
    proof {
        if s.raw().len() > 0 {
            lemma_finalized_in_day(*s);
        }
    }
}

/// Import the schedule of one line: collect its runs, finalize both
/// directions and plan the timetable. Returns the plan, the partial runs,
/// and the finalized forward and return schedules.
pub fn plan_line_schedule(
    schedules: &[NimbySchedule],
    line_id: &str,
    turnaround_idx: Option<usize>,
    max_stop_idx: usize,
    stops: &[LineStop],
) -> (r: (SchedulePlan, Vec<RunRef>, DirectionSchedule, DirectionSchedule))
    requires
        2 * stops@.len() + 1 <= usize::MAX,
        turnaround_idx matches Some(t) ==> t + 2 <= usize::MAX,
    ensures
        ({
            let c = collected(schedules@, run_refs(schedules@), line_id@, turnaround_idx, max_stop_idx as int, stops@);
            &&& r.2.raw() == c.0
            &&& r.3.raw() == c.1
            &&& r.1@ == c.2
        }),
        finalized(r.2),
        finalized(r.3),
        plan_ok(r.0, r.2, r.3, r.1@.len() > 0),
{
    let (mut forward, mut back, partial) = collect_runs_for_line(schedules, line_id, turnaround_idx, max_stop_idx, stops);
    finalize_collected(&mut forward);
    finalize_collected(&mut back);
    let plan = plan_schedule(&forward, &back, partial.len() > 0);
    (plan, partial, forward, back)
}

/// Code prefix of deadhead lines.
pub open spec fn deadhead_prefix() -> Seq<char> {
    seq!['D', '-']
}

/// A line is offered for import when it has at least two stops and is not a
/// deadhead line (code starting with `D-`).
pub fn is_summarized_line(code: &str, stop_count: usize) -> (r: bool)
    ensures
        r == (stop_count >= 2 && !has_prefix(code@, deadhead_prefix())),
{
    let prefix = chars_of("D-");
    proof {
        reveal_strlit("D-");
    }
    assert(prefix@ =~= deadhead_prefix());
    stop_count >= 2 && !starts_with_chars(chars_of(code).as_slice(), prefix.as_slice())
}

/// Number of stops that are not waypoints.
pub open spec fn station_count_spec(ids: Seq<Seq<char>>) -> nat
    decreases ids.len(),
{
    if ids.len() == 0 {
        0
    } else {
        station_count_spec(ids.drop_last()) + if ids.last() != waypoint_id() { 1nat } else { 0nat }
    }
}

/// Count the stops of a line that are not waypoints.
pub fn count_stations(station_ids: &[String]) -> (r: usize)
    ensures
        r == station_count_spec(station_ids@.map_values(|s: String| s@)),
{
    let ghost ids = station_ids@.map_values(|s: String| s@);
    let mut n: usize = 0;
    let mut i: usize = 0;
    proof {
        reveal_strlit("0x0");
    }
    while i < station_ids.len()
        invariant
            ids == station_ids@.map_values(|s: String| s@),
            "0x0"@ =~= waypoint_id(),
            i <= ids.len(),
            n == station_count_spec(ids.take(i as int)),
            n <= i,
        decreases ids.len() - i,
    {
        proof {
            let t = ids.take(i + 1);
            assert(t.drop_last() =~= ids.take(i as int));
            assert(t.last() == station_ids@[i as int]@);
        }
        if !str_eq(station_ids[i].as_str(), "0x0") {
            n = n + 1;
        }
        i = i + 1;
    }
    assert(ids.take(ids.len() as int) =~= ids);
    n
}

/// The first track area of a stop, over all its area groups in order.
pub open spec fn first_area(areas: Seq<Vec<NimbyTrackArea>>) -> Option<NimbyTrackArea>
    decreases areas.len(),
{
    if areas.len() == 0 {
        None
    } else if areas[0]@.len() > 0 {
        Some(areas[0]@[0])
    } else {
        first_area(areas.drop_first())
    }
}

/// The platform of a stop: the name of its first track area, without a
/// compass suffix.
pub fn get_platform_from_stop(areas: &[Vec<NimbyTrackArea>]) -> (r: Option<String>)
    ensures
        match first_area(areas@) {
            Some(a) => r matches Some(p) && p@ == normalized_platform_spec(a.platform_name@),
            None => r is None,
        },
{
    let mut i: usize = 0;
    assert(areas@.subrange(0, areas@.len() as int) =~= areas@);
    while i < areas.len()
        invariant
            i <= areas@.len(),
            first_area(areas@) == first_area(areas@.subrange(i as int, areas@.len() as int)),
        decreases areas@.len() - i,
    {
        proof {
            let rest = areas@.subrange(i as int, areas@.len() as int);
            assert(rest.drop_first() =~= areas@.subrange(i + 1, areas@.len() as int));
            assert(rest[0] == areas@[i as int]);
        }
        if areas[i].len() > 0 {
            return Some(normalize_platform_name(areas[i][0].platform_name.as_str()));
        }
        i = i + 1;
    }
    assert(areas@.subrange(i as int, areas@.len() as int).len() == 0);
    None
}


/// A line of a NIMBY Rails export as the line list reads it.
pub struct NimbyLineData {
    pub id: String,
    pub name: String,
    pub code: String,
    pub color: String,
    /// The station of each stop, in order.
    pub stop_station_ids: Vec<String>,
}

/// A line is offered for import (see `is_summarized_line`).
pub open spec fn summarized(l: NimbyLineData) -> bool {
    l.stop_station_ids@.len() >= 2 && !has_prefix(l.code@, deadhead_prefix())
}

/// Positions of the lines offered for import among the first `n` lines.
pub open spec fn summarized_upto(lines: Seq<NimbyLineData>, n: int) -> Seq<int>
    decreases n,
{
    if n <= 0 {
        Seq::empty()
    } else {
        let r = summarized_upto(lines, n - 1);
        if summarized(lines[n - 1]) {
            r.push(n - 1)
        } else {
            r
        }
    }
}

/// `s` summarises line `l`: its id, name and code, its colour as CSS, and its
/// numbers of stops and of stations (stops that are not waypoints).
pub open spec fn summary_of(l: NimbyLineData, s: NimbyLineSummary) -> bool {
    &&& s.id@ == l.id@
    &&& s.name@ == l.name@
    &&& s.code@ == l.code@
    &&& s.color@ == nimby_color_spec(vstd::utf8::encode_utf8(l.color@))
    &&& s.stop_count == l.stop_station_ids@.len()
    &&& s.station_count == station_count_spec(l.stop_station_ids@.map_values(|x: String| x@))
}

proof fn lemma_summarized_upto(lines: Seq<NimbyLineData>, n: int)
    requires
        0 <= n <= lines.len(),
    ensures
        summarized_upto(lines, n).len() <= n,
        forall|k: int| 0 <= k < summarized_upto(lines, n).len() ==> 0 <= #[trigger] summarized_upto(lines, n)[k] < n
            && summarized(lines[summarized_upto(lines, n)[k]]),
    decreases n,
{
    if n > 0 {
        lemma_summarized_upto(lines, n - 1);
    }
}

/// The lines of an export that are offered for import, in export order, each
/// with its summary; `text_color` gives the text colour that suits a line's
/// CSS colour.
pub fn get_line_summaries<F: Fn(&str) -> &'static str>(lines: &[NimbyLineData], text_color: F) -> (r: Vec<NimbyLineSummary>)
    requires
        forall|i: int| 0 <= i < lines@.len() && summarized(#[trigger] lines@[i]) ==> nimby_color_sliceable(vstd::utf8::encode_utf8(lines@[i].color@)),
        forall|c: &str| text_color.requires((c,)),
    ensures
        r@.len() == summarized_upto(lines@, lines@.len() as int).len(),
        forall|k: int| 0 <= k < r@.len() ==> {
            let i = summarized_upto(lines@, lines@.len() as int)[k];
            &&& summary_of(lines@[i], #[trigger] r@[k])
            &&& exists|c: &str| c@ == r@[k].color@ && #[trigger] text_color.ensures((c,), r@[k].text_color)
        },
{
    let mut out: Vec<NimbyLineSummary> = Vec::new();
    let mut i: usize = 0;
    while i < lines.len()
        invariant
            i <= lines@.len(),
            forall|j: int| 0 <= j < lines@.len() && summarized(#[trigger] lines@[j]) ==> nimby_color_sliceable(vstd::utf8::encode_utf8(lines@[j].color@)),
            forall|c: &str| text_color.requires((c,)),
            out@.len() == summarized_upto(lines@, i as int).len(),
            forall|k: int| 0 <= k < out@.len() ==> {
                let j = summarized_upto(lines@, i as int)[k];
                &&& summary_of(lines@[j], #[trigger] out@[k])
                &&& exists|c: &str| c@ == out@[k].color@ && #[trigger] text_color.ensures((c,), out@[k].text_color)
            },
        decreases lines@.len() - i,
    {
        let line = &lines[i];
        if is_summarized_line(line.code.as_str(), line.stop_station_ids.len()) {
            assert(summarized(lines@[i as int]));
            let color = parse_nimby_color(line.color.as_str());
            let cs = color.as_str();
            let tc = text_color(cs);
            let ghost cv = color@;
            assert(cs@ == cv && text_color.ensures((cs,), tc));
            assert(exists|c: &str| c@ == cv && #[trigger] text_color.ensures((c,), tc));
            let summary = NimbyLineSummary {
                id: line.id.clone(),
                name: line.name.clone(),
                code: line.code.clone(),
                color,
                text_color: tc,
                stop_count: line.stop_station_ids.len(),
                station_count: count_stations(line.stop_station_ids.as_slice()),
            };
            let ghost before = out@;
            out.push(summary);
            proof {
                assert(summarized_upto(lines@, i + 1) == summarized_upto(lines@, i as int).push(i as int));
                assert forall|k: int| 0 <= k < out@.len() implies {
                    let j = summarized_upto(lines@, i + 1)[k];
                    &&& summary_of(lines@[j], #[trigger] out@[k])
                    &&& exists|c: &str| c@ == out@[k].color@ && #[trigger] text_color.ensures((c,), out@[k].text_color)
                } by {
                    if k < before.len() {
                        assert(out@[k] == before[k]);
                    } else {
                        assert(out@[k] == summary);
                        assert(k == before.len());
                        assert(summarized_upto(lines@, i + 1)[k] == i);
                        assert(summary.id@ == lines@[i as int].id@);
                        assert(summary.name@ == lines@[i as int].name@);
                        assert(summary.code@ == lines@[i as int].code@);
                        assert(summary.color@ == nimby_color_spec(vstd::utf8::encode_utf8(lines@[i as int].color@)));
                        assert(summary.stop_count == lines@[i as int].stop_station_ids@.len());
                        assert(summary.station_count == station_count_spec(lines@[i as int].stop_station_ids@.map_values(|x: String| x@)));
                        let c = choose|c: &str| c@ == cv && #[trigger] text_color.ensures((c,), tc);
                        assert(c@ == out@[k].color@ && text_color.ensures((c,), out@[k].text_color));
                    }
                }
            }
        } else {
            assert(summarized_upto(lines@, i + 1) == summarized_upto(lines@, i as int));
        }
        proof {
            lemma_summarized_upto(lines@, i + 1);
        }
        i = i + 1;
    }
    out
}
} // verus!
