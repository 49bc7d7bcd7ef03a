//! The scorer: day-quality metrics for one candidate assignment — earliest
//! start deviation, same-day idle gaps, round trips home during long breaks —
//! folded into a single scalar score under a hard credit-hour bound.
use vstd::prelude::*;
use vstd::relations::{reflexive, sorted_by, strongly_connected, total_ordering, transitive};
use vstd::seq_lib::lemma_sorted_unique;
use crate::course::{Section, SectionView};
use crate::interval::TimeDuration;

verus! {

/// Penalty points per round trip home.
pub const TRIP_COUNT_PENALTY: u32 = 20;

/// Fixed-point scale of the scalar score; also the divisor applied to trip
/// minutes in the score formula.
pub const SCORE_SCALE: u32 = 100;

/// A gap of exactly this many minutes is an ordinary between-class buffer,
/// not idle time.
pub const BUFFER_MINUTES: u32 = 10;

/// Gaps of at least this many minutes count as a round trip home.
pub const TRIP_THRESHOLD_MINUTES: u32 = 120;

/// Inclusive lower bound on feasible total credit hours.
pub const MIN_CREDIT_HOURS: u32 = 16;

/// Inclusive upper bound on feasible total credit hours.
pub const MAX_CREDIT_HOURS: u32 = 20;

/// The scalar quality score.  `Finite(v)` stands for the rational number
/// `v / SCORE_SCALE`; `NegInfinity` marks an infeasible assignment and sorts
/// below every finite score.
#[derive(Clone, Copy, Debug, PartialEq, Eq, Structural)]
pub enum Score {
    NegInfinity,
    Finite(i64),
}

/// The day-quality tallies derived from the same-day gaps of an assignment.
#[derive(Clone, Copy, Debug, PartialEq, Eq, Structural)]
pub struct TimeAnalysis {
    pub back_to_dorm_count: u32,
    pub back_to_dorm_minutes: u32,
    pub bs_time: u32,
}

/// Sum of credit hours over the chosen sections.
pub open spec fn spec_credit_hours(sched: Seq<SectionView>) -> int
    decreases sched.len(),
{
    if sched.len() == 0 {
        0
    } else {
        spec_credit_hours(sched.drop_last()) + sched.last().credits
    }
}

/// Earliest start hour among a section's time blocks.
pub open spec fn spec_min_hour(times: Seq<TimeDuration>) -> int
    decreases times.len(),
{
    if times.len() <= 1 {
        times[0].hour as int
    } else {
        let m = spec_min_hour(times.drop_last());
        if times.last().hour < m {
            times.last().hour as int
        } else {
            m
        }
    }
}

/// The assignment's start hour: the earliest start hour over all sections.
pub open spec fn spec_starting_time(sched: Seq<SectionView>) -> int
    decreases sched.len(),
{
    if sched.len() <= 1 {
        spec_min_hour(sched[0].times)
    } else {
        let m = spec_starting_time(sched.drop_last());
        let h = spec_min_hour(sched.last().times);
        if h < m {
            h
        } else {
            m
        }
    }
}

/// Distance of the assignment's start hour from the noon-centered ideal.
pub open spec fn spec_start_dt(sched: Seq<SectionView>) -> int {
    let s = spec_starting_time(sched);
    if s >= 12 {
        s - 12
    } else {
        12 - s
    }
}

proof fn lemma_credit_hours_prefix(sched: Seq<SectionView>, k: int)
    requires
        0 <= k <= sched.len(),
    ensures
        0 <= spec_credit_hours(sched.take(k)),
        spec_credit_hours(sched.take(k)) <= spec_credit_hours(sched),
    decreases sched.len() - k,
{
    lemma_credit_hours_nonneg(sched.take(k));
    if k == sched.len() {
        assert(sched.take(k) =~= sched);
    } else {
        lemma_credit_hours_prefix(sched, k + 1);
        assert(sched.take(k + 1).drop_last() =~= sched.take(k));
    }
}

proof fn lemma_credit_hours_nonneg(sched: Seq<SectionView>)
    ensures
        0 <= spec_credit_hours(sched),
    decreases sched.len(),
{
    if sched.len() > 0 {
        lemma_credit_hours_nonneg(sched.drop_last());
    }
}

/// Sum of the selected sections' credit hours.
pub fn schedule_credit_hours(sched: &Vec<Section>) -> (r: u32)
    requires
        spec_credit_hours(sched.deep_view()) <= u32::MAX,
    ensures
        r == spec_credit_hours(sched.deep_view()),
{
    let ghost dv = sched.deep_view();
    let mut acc: u32 = 0;
    let mut i: usize = 0;
    while i < sched.len()
        invariant
            i <= dv.len(),
            dv == sched.deep_view(),
            dv.len() == sched@.len(),
            spec_credit_hours(dv) <= u32::MAX,
            acc == spec_credit_hours(dv.take(i as int)),
        decreases dv.len() - i,
    {
        proof {
            lemma_credit_hours_prefix(dv, i + 1);
            assert(dv.take(i + 1).drop_last() =~= dv.take(i as int));
            assert(dv.take(i + 1).last() == dv[i as int]);
            assert(dv[i as int] == sched@[i as int]@);
        }
        acc = acc + sched[i].credits as u32;
        i += 1;
    }
    proof {
        assert(dv.take(dv.len() as int) =~= dv);
    }
    acc
}

/// Earliest start hour among one section's blocks.
fn section_min_hour(sec: &Section) -> (r: u32)
    requires
        sec@.times.len() > 0,
    ensures
        r == spec_min_hour(sec@.times),
{
    let ghost ts = sec@.times;
    let mut acc: u32 = sec.times[0].hour;
    let mut j: usize = 1;
    assert(ts.take(1) =~= seq![ts[0]]);
    while j < sec.times.len()
        invariant
            1 <= j <= ts.len(),
            ts == sec@.times,
            ts.len() == sec.times@.len(),
            acc == spec_min_hour(ts.take(j as int)),
        decreases ts.len() - j,
    {
        proof {
            assert(ts.take(j + 1).drop_last() =~= ts.take(j as int));
            assert(ts.take(j + 1).last() == ts[j as int]);
        }
        let h = sec.times[j].hour;
        if h < acc {
            acc = h;
        }
        j += 1;
    }
    proof {
        assert(ts.take(ts.len() as int) =~= ts);
    }
    acc
}

/// The assignment's start hour: the minimum, over the selected sections, of
/// each section's earliest start hour.
pub fn schedule_starting_time(sched: &Vec<Section>) -> (r: u32)
    requires
        sched.deep_view().len() > 0,
        forall|p: int|
            0 <= p < sched.deep_view().len() ==> (#[trigger] sched.deep_view()[p]).times.len() > 0,
    ensures
        r == spec_starting_time(sched.deep_view()),
{
    let ghost dv = sched.deep_view();
    assert(sched@[0]@ == dv[0]);
    let mut acc: u32 = section_min_hour(&sched[0]);
    let mut i: usize = 1;
    assert(dv.take(1) =~= seq![dv[0]]);
    assert(spec_min_hour(dv[0].times) == spec_starting_time(dv.take(1)));
    while i < sched.len()
        invariant
            1 <= i <= dv.len(),
            dv == sched.deep_view(),
            dv.len() == sched@.len(),
            forall|p: int| 0 <= p < dv.len() ==> (#[trigger] dv[p]).times.len() > 0,
            acc == spec_starting_time(dv.take(i as int)),
        decreases dv.len() - i,
    {
        proof {
            assert(dv.take(i + 1).drop_last() =~= dv.take(i as int));
            assert(dv.take(i + 1).last() == dv[i as int]);
            assert(sched@[i as int]@ == dv[i as int]);
        }
        let h = section_min_hour(&sched[i]);
        if h < acc {
            acc = h;
        }
        i += 1;
    }
    proof {
        assert(dv.take(dv.len() as int) =~= dv);
    }
    acc
}

/// The ordering the day partition is sorted by: by start minute, with the
/// remaining fields as tie breakers so that the order is antisymmetric.
pub open spec fn td_leq(a: TimeDuration, b: TimeDuration) -> bool {
    if a.spec_minute_begin() != b.spec_minute_begin() {
        a.spec_minute_begin() < b.spec_minute_begin()
    } else if a.hour != b.hour {
        a.hour < b.hour
    } else if a.length_in_minutes != b.length_in_minutes {
        a.length_in_minutes < b.length_in_minutes
    } else {
        a.day <= b.day
    }
}

/// `td_leq` as a first-class function, so that every use names one value.
pub open spec fn td_leq_fn() -> spec_fn(TimeDuration, TimeDuration) -> bool {
    |a: TimeDuration, b: TimeDuration| td_leq(a, b)
}

pub proof fn lemma_td_leq_total_ordering()
    ensures
        total_ordering(td_leq_fn()),
{
    let leq = td_leq_fn();
    assert forall|a: TimeDuration, b: TimeDuration| #[trigger] leq(a, b) && #[trigger] leq(b, a)
        implies a == b by {
        assert(a.hour == b.hour && a.minutes == b.minutes && a.length_in_minutes
            == b.length_in_minutes && a.day == b.day);
    }
    assert(reflexive(leq)) by {
        assert(forall|a: TimeDuration| #[trigger] leq(a, a));
    }
    assert(strongly_connected(leq)) by {
        assert(forall|a: TimeDuration, b: TimeDuration| #[trigger] leq(a, b) || #[trigger] leq(
            b,
            a,
        ));
    }
    assert(transitive(leq)) by {
        assert(forall|a: TimeDuration, b: TimeDuration, c: TimeDuration|
            #[trigger] leq(a, b) && #[trigger] leq(b, c) ==> leq(a, c));
    }
}

/// The blocks of every section of the assignment, flattened in order.
pub open spec fn times_of(sched: Seq<SectionView>) -> Seq<Seq<TimeDuration>> {
    sched.map(|i: int, s: SectionView| s.times)
}

pub open spec fn all_times(sched: Seq<SectionView>) -> Seq<TimeDuration> {
    times_of(sched).flatten()
}

/// The predicate selecting the blocks of one weekday.
pub open spec fn on_day(d: int) -> spec_fn(TimeDuration) -> bool {
    |t: TimeDuration| t.day == d
}

/// The assignment's blocks on day `d`, in flattening order.
pub open spec fn day_times(sched: Seq<SectionView>, d: int) -> Seq<TimeDuration> {
    all_times(sched).filter(on_day(d))
}

/// The assignment's blocks on day `d`, sorted by start time.
pub open spec fn sorted_day(sched: Seq<SectionView>, d: int) -> Seq<TimeDuration> {
    day_times(sched, d).sort_by(td_leq_fn())
}

/// Any two same-day blocks at different positions neither overlap nor touch:
/// the well-formed-data precondition of the gap analysis.
pub open spec fn strictly_separated(ts: Seq<TimeDuration>) -> bool {
    forall|i: int, j: int|
        0 <= i < ts.len() && 0 <= j < ts.len() && i != j && (#[trigger] ts[i]).day
            == (#[trigger] ts[j]).day ==> ts[i].spec_minute_end() < ts[j].spec_minute_begin()
            || ts[j].spec_minute_end() < ts[i].spec_minute_begin()
}

/// Every block in the sequence is well formed.
pub open spec fn all_times_wf(ts: Seq<TimeDuration>) -> bool {
    forall|i: int| 0 <= i < ts.len() ==> (#[trigger] ts[i]).wf()
}

/// The minute gap between block `j - 1` and block `j` of a sorted day.
pub open spec fn gap_at(s: Seq<TimeDuration>, j: int) -> int {
    s[j].spec_minute_begin() - s[j - 1].spec_minute_end()
}

pub open spec fn spec_gap_idle(gap: int) -> int {
    if gap < TRIP_THRESHOLD_MINUTES && gap != BUFFER_MINUTES {
        gap
    } else {
        0
    }
}

pub open spec fn spec_gap_trips(gap: int) -> int {
    if gap >= TRIP_THRESHOLD_MINUTES {
        1
    } else {
        0
    }
}

pub open spec fn spec_gap_trip_minutes(gap: int) -> int {
    if gap >= TRIP_THRESHOLD_MINUTES {
        gap
    } else {
        0
    }
}

/// Idle minutes, trip count and trip minutes contributed by the first `k`
/// blocks of one sorted day.
pub open spec fn day_tally(s: Seq<TimeDuration>, k: int) -> (int, int, int)
    decreases k,
{
    if k <= 1 {
        (0, 0, 0)
    } else {
        let p = day_tally(s, k - 1);
        let g = gap_at(s, k - 1);
        (p.0 + spec_gap_idle(g), p.1 + spec_gap_trips(g), p.2 + spec_gap_trip_minutes(g))
    }
}

/// The three tallies summed over the first `d` weekdays.
pub open spec fn spec_tally_upto(sched: Seq<SectionView>, d: int) -> (int, int, int)
    decreases d,
{
    if d <= 0 {
        (0, 0, 0)
    } else {
        let p = spec_tally_upto(sched, d - 1);
        let sd = sorted_day(sched, d - 1);
        let t = day_tally(sd, sd.len() as int);
        (p.0 + t.0, p.1 + t.1, p.2 + t.2)
    }
}

/// The assignment's full gap analysis: (idle minutes, trips, trip minutes).
pub open spec fn spec_time_analysis(sched: Seq<SectionView>) -> (int, int, int) {
    spec_tally_upto(sched, 5)
}

/// Elements of a filtered sequence are elements of the original.
pub(crate) proof fn lemma_filter_subset<A>(s: Seq<A>, p: spec_fn(A) -> bool, x: A)
    requires
        s.filter(p).contains(x),
    ensures
        s.contains(x),
    decreases s.len(),
{
    reveal(Seq::filter);
    if s.len() > 0 {
        let f = s.filter(p);
        let i = choose|i: int| 0 <= i < f.len() && f[i] == x;
        if p(s.last()) {
            if i < f.len() - 1 {
                assert(s.drop_last().filter(p).contains(x));
                lemma_filter_subset(s.drop_last(), p, x);
                let j = choose|j: int| 0 <= j < s.drop_last().len() && s.drop_last()[j] == x;
                assert(s[j] == x);
            } else {
                assert(s.last() == x);
            }
        } else {
            assert(s.drop_last().filter(p).contains(x));
            lemma_filter_subset(s.drop_last(), p, x);
            let j = choose|j: int| 0 <= j < s.drop_last().len() && s.drop_last()[j] == x;
            assert(s[j] == x);
        }
    }
}

/// A filtered sequence of a duplicate-free sequence is duplicate free.
pub(crate) proof fn lemma_filter_no_duplicates<A>(s: Seq<A>, p: spec_fn(A) -> bool)
    requires
        s.no_duplicates(),
    ensures
        s.filter(p).no_duplicates(),
    decreases s.len(),
{
    reveal(Seq::filter);
    if s.len() > 0 {
        assert(s.drop_last().no_duplicates());
        lemma_filter_no_duplicates(s.drop_last(), p);
        if p(s.last()) {
            if s.drop_last().filter(p).contains(s.last()) {
                lemma_filter_subset(s.drop_last(), p, s.last());
                let j = choose|j: int|
                    0 <= j < s.drop_last().len() && s.drop_last()[j] == s.last();
                assert(s[j] == s[s.len() - 1]);
                assert(false);
            }
        }
    }
}

/// Strict separation forbids two positions holding the same block.
proof fn lemma_separated_no_duplicates(ts: Seq<TimeDuration>)
    requires
        strictly_separated(ts),
    ensures
        ts.no_duplicates(),
{
    assert forall|i: int, j: int| 0 <= i < ts.len() && 0 <= j < ts.len() && i != j implies ts[i]
        != ts[j] by {
        if ts[i] == ts[j] {
            assert(ts[i].day == ts[j].day);
        }
    }
}

/// Strict separation carries over to any permutation of any day's blocks.
proof fn lemma_rearranged_separated(ts: Seq<TimeDuration>, b: Seq<TimeDuration>, d: int)
    requires
        strictly_separated(ts),
        b.to_multiset() == ts.filter(on_day(d)).to_multiset(),
    ensures
        strictly_separated(b),
        b.no_duplicates(),
        forall|i: int| 0 <= i < b.len() ==> (#[trigger] b[i]).day == d,
        forall|i: int| all_times_wf(ts) && 0 <= i < b.len() ==> (#[trigger] b[i]).wf(),
{
    broadcast use vstd::seq_lib::group_to_multiset_ensures;

    let f = ts.filter(on_day(d));
    lemma_separated_no_duplicates(ts);
    lemma_filter_no_duplicates(ts, on_day(d));
    f.lemma_multiset_has_no_duplicates();
    assert(forall|x: TimeDuration| b.to_multiset().contains(x) ==> b.to_multiset().count(x) == 1);
    b.lemma_multiset_has_no_duplicates_conv();
    assert forall|i: int| 0 <= i < b.len() implies (#[trigger] b[i]).day == d && (f.contains(
        b[i],
    )) by {
        assert(b.to_multiset().contains(b[i]));
        assert(f.contains(b[i]));
        let k = choose|k: int| 0 <= k < f.len() && f[k] == b[i];
        assert(on_day(d)(f[k])) by {
            ts.lemma_filter_pred(on_day(d), k);
        }
    }
    assert forall|i: int, j: int|
        0 <= i < b.len() && 0 <= j < b.len() && i != j && (#[trigger] b[i]).day
            == (#[trigger] b[j]).day implies b[i].spec_minute_end() < b[j].spec_minute_begin()
        || b[j].spec_minute_end() < b[i].spec_minute_begin() by {
        assert(b[i] != b[j]);
        assert(f.contains(b[i]));
        assert(f.contains(b[j]));
        lemma_filter_subset(ts, on_day(d), b[i]);
        lemma_filter_subset(ts, on_day(d), b[j]);
        let p = choose|p: int| 0 <= p < ts.len() && ts[p] == b[i];
        let q = choose|q: int| 0 <= q < ts.len() && ts[q] == b[j];
        assert(p != q);
        assert(ts[p].day == ts[q].day);
    }
    if all_times_wf(ts) {
        assert forall|i: int| 0 <= i < b.len() implies (#[trigger] b[i]).wf() by {
            assert(f.contains(b[i]));
            lemma_filter_subset(ts, on_day(d), b[i]);
            let p = choose|p: int| 0 <= p < ts.len() && ts[p] == b[i];
        }
    }
}

/// In a sorted, strictly separated day every consecutive gap is positive.
proof fn lemma_sorted_gaps_positive(b: Seq<TimeDuration>)
    requires
        sorted_by(b, td_leq_fn()),
        strictly_separated(b),
        forall|i: int, j: int|
            0 <= i < b.len() && 0 <= j < b.len() ==> (#[trigger] b[i]).day == (#[trigger] b[j]).day,
    ensures
        forall|j: int| 1 <= j < b.len() ==> (#[trigger] b[j]).spec_minute_begin() > b[j - 1].spec_minute_end(),
{
    assert forall|j: int| 1 <= j < b.len() implies (#[trigger] b[j]).spec_minute_begin() > b[j - 1].spec_minute_end() by {
        assert(td_leq_fn()(b[j - 1], b[j]));
        assert(b[j - 1].day == b[j].day);
        assert(b[j - 1].spec_minute_end() < b[j].spec_minute_begin() || b[j].spec_minute_end() < b[j - 1].spec_minute_begin());
    }
}

/// Bounds on one day's tallies: the idle and trip minutes together never
/// exceed the day's last start minute, and every trip accounts for at least
/// the trip threshold.
proof fn lemma_day_tally_bounds(s: Seq<TimeDuration>, k: int)
    requires
        1 <= k <= s.len(),
        forall|j: int| 1 <= j < s.len() ==> (#[trigger] s[j]).spec_minute_begin() > s[j - 1].spec_minute_end(),
        all_times_wf(s),
    ensures
        0 <= day_tally(s, k).0,
        0 <= day_tally(s, k).1,
        0 <= day_tally(s, k).2,
        day_tally(s, k).0 + day_tally(s, k).2 <= s[k - 1].spec_minute_begin(),
        day_tally(s, k).1 * TRIP_THRESHOLD_MINUTES <= day_tally(s, k).2,
    decreases k,
{
    if k > 1 {
        lemma_day_tally_bounds(s, k - 1);
        let g = gap_at(s, k - 1);
        assert(g > 0);
        assert(s[k - 2].spec_minute_end() >= s[k - 2].spec_minute_begin());
    }
}

/// Compare two blocks by the day-partition ordering.
fn td_le_exec(a: &TimeDuration, b: &TimeDuration) -> (r: bool)
    requires
        a.wf(),
        b.wf(),
    ensures
        r == td_leq(*a, *b),
{
    let ab = a.minute_begin();
    let bb = b.minute_begin();
    if ab != bb {
        ab < bb
    } else if a.hour != b.hour {
        a.hour < b.hour
    } else if a.length_in_minutes != b.length_in_minutes {
        a.length_in_minutes < b.length_in_minutes
    } else {
        a.day <= b.day
    }
}

/// Insertion sort of one day's blocks by start time.
fn sort_times(v: Vec<TimeDuration>) -> (r: Vec<TimeDuration>)
    requires
        forall|i: int| 0 <= i < v@.len() ==> (#[trigger] v@[i]).wf(),
    ensures
        sorted_by(r@, td_leq_fn()),
        r@.to_multiset() == v@.to_multiset(),
        forall|i: int| 0 <= i < r@.len() ==> (#[trigger] r@[i]).wf(),
{
    broadcast use vstd::seq_lib::group_to_multiset_ensures;
    broadcast use vstd::seq_lib::to_multiset_insert;

    let mut out: Vec<TimeDuration> = Vec::new();
    let mut i: usize = 0;
    proof {
        assert(v@.take(0) =~= Seq::<TimeDuration>::empty());
        assert(out@.to_multiset() =~= v@.take(0).to_multiset());
    }
    while i < v.len()
        invariant
            i <= v@.len(),
            forall|k: int| 0 <= k < v@.len() ==> (#[trigger] v@[k]).wf(),
            forall|k: int| 0 <= k < out@.len() ==> (#[trigger] out@[k]).wf(),
            sorted_by(out@, td_leq_fn()),
            out@.to_multiset() == v@.take(i as int).to_multiset(),
        decreases v@.len() - i,
    {
        let x = v[i];
        let mut p: usize = 0;
        while p < out.len() && td_le_exec(&out[p], &x)
            invariant
                p <= out@.len(),
                x.wf(),
                forall|k: int| 0 <= k < out@.len() ==> (#[trigger] out@[k]).wf(),
                forall|q: int| 0 <= q < p ==> td_leq(#[trigger] out@[q], x),
            decreases out@.len() - p,
        {
            p += 1;
        }
        let ghost before = out@;
        let ghost leq = td_leq_fn();
        out.insert(p, x);
        proof {
            lemma_td_leq_total_ordering();
            assert(out@ == before.insert(p as int, x));
            before.insert_ensures(p as int, x);
            if p < before.len() {
                assert(!td_leq(before[p as int], x));
                assert(leq(x, before[p as int]));
            }
            assert forall|m: int, n: int| 0 <= m < n < out@.len() implies leq(
                #[trigger] out@[m],
                #[trigger] out@[n],
            ) by {
                if n < p {
                    assert(out@[m] == before[m] && out@[n] == before[n]);
                    assert(leq(before[m], before[n]));
                } else if n == p {
                    assert(out@[m] == before[m] && out@[n] == x);
                    assert(td_leq(before[m], x));
                    assert(leq(before[m], x));
                } else {
                    assert(out@[n] == before[n - 1]);
                    if m < p {
                        assert(out@[m] == before[m]);
                        assert(m < n - 1);
                        assert(leq(before[m], before[n - 1]));
                    } else if m == p {
                        assert(out@[m] == x);
                        assert(leq(x, before[p as int]));
                        if (p as int) < n - 1 {
                            assert(leq(before[p as int], before[n - 1]));
                            assert(transitive(leq));
                            assert(leq(x, before[n - 1]));
                        }
                    } else {
                        assert(out@[m] == before[m - 1]);
                        assert(leq(before[m - 1], before[n - 1]));
                    }
                }
            }
            assert(sorted_by(out@, td_leq_fn()));
            vstd::seq_lib::to_multiset_insert(before, p as int, x);
            assert(before.insert(p as int, x).to_multiset() == before.to_multiset().insert(x));
            assert(v@.take(i + 1).drop_last() =~= v@.take(i as int));
            assert(v@.take(i + 1) =~= v@.take(i as int).push(x));
            v@.take(i as int).to_multiset_ensures();
            assert(v@.take(i + 1).to_multiset() =~= v@.take(i as int).to_multiset().insert(x));
            assert(out@.to_multiset() == v@.take(i + 1).to_multiset());
            assert forall|q: int| 0 <= q < out@.len() implies (#[trigger] out@[q]).wf() by {
                if q > p {
                    assert(out@[q] == before[q - 1]);
                }
            }
        }
        i += 1;
    }
    proof {
        assert(v@.take(v@.len() as int) =~= v@);
    }
    out
}

/// Collect the assignment's blocks that lie on day `d`, in flattening order.
fn collect_day(sched: &Vec<Section>, d: u8) -> (r: Vec<TimeDuration>)
    ensures
        r@ == day_times(sched.deep_view(), d as int),
{
    broadcast use Seq::lemma_flatten_push;
    broadcast use Seq::lemma_filter_push;

    let ghost dv = sched.deep_view();
    let ghost pred = on_day(d as int);
    let mut r: Vec<TimeDuration> = Vec::new();
    let mut i: usize = 0;
    proof {
        reveal(Seq::filter);
        assert(times_of(dv).take(0) =~= Seq::<Seq<TimeDuration>>::empty());
        assert(times_of(dv).take(0).flatten() =~= Seq::<TimeDuration>::empty());
        assert(r@ =~= times_of(dv).take(0).flatten().filter(pred));
    }
    while i < sched.len()
        invariant
            i <= dv.len(),
            dv == sched.deep_view(),
            dv.len() == sched@.len(),
            pred == on_day(d as int),
            r@ == times_of(dv).take(i as int).flatten().filter(pred),
        decreases dv.len() - i,
    {
        let ghost prefix = times_of(dv).take(i as int).flatten();
        let ghost ts = dv[i as int].times;
        let n = sched[i].times.len();
        let mut j: usize = 0;
        proof {
            assert(ts.take(0) =~= Seq::<TimeDuration>::empty());
            assert(prefix + ts.take(0) =~= prefix);
        }
        while j < n
            invariant
                j <= ts.len(),
                dv == sched.deep_view(),
                dv.len() == sched@.len(),
                i < dv.len(),
                n == ts.len(),
                ts == dv[i as int].times,
                ts == sched@[i as int]@.times,
                pred == on_day(d as int),
                r@ == (prefix + ts.take(j as int)).filter(pred),
            decreases ts.len() - j,
        {
            let t = sched[i].times[j];
            proof {
                assert(t == ts[j as int]);
                assert((prefix + ts.take(j + 1)) =~= (prefix + ts.take(j as int)).push(t));
            }
            if t.day == d {
                r.push(t);
                proof {
                    assert(pred(t));
                    (prefix + ts.take(j as int)).lemma_filter_push(t, pred);
                    assert((prefix + ts.take(j as int)).push(t).filter(pred) == (prefix + ts.take(
                        j as int,
                    )).filter(pred).push(t));
                    assert(r@ == (prefix + ts.take(j + 1)).filter(pred));
                }
            } else {
                proof {
                    assert(!pred(t));
                    (prefix + ts.take(j as int)).lemma_filter_push(t, pred);
                    assert((prefix + ts.take(j as int)).push(t).filter(pred) == (prefix + ts.take(
                        j as int,
                    )).filter(pred));
                    assert(r@ == (prefix + ts.take(j + 1)).filter(pred));
                }
            }
            j += 1;
        }
        proof {
            assert(prefix + ts.take(ts.len() as int) =~= prefix + ts);
            assert(times_of(dv).take(i + 1) =~= times_of(dv).take(i as int).push(ts));
            times_of(dv).take(i as int).lemma_flatten_push(ts);
            assert(times_of(dv).take(i as int).push(ts).flatten() =~= prefix + ts);
            assert(times_of(dv).take(i + 1).flatten() =~= prefix + ts);
        }
        i += 1;
    }
    proof {
        assert(times_of(dv).take(dv.len() as int) =~= times_of(dv));
    }
    r
}

/// Partition the assignment's blocks by weekday, walk each day in start-time
/// order, and classify every between-class gap: short gaps (except the exact
/// ten-minute buffer) are idle time; gaps of two hours or more are round
/// trips home.
/// Walk one sorted day and classify its consecutive gaps.
fn tally_sorted_day(sorted: &Vec<TimeDuration>) -> (r: (u32, u32, u32))
    requires
        forall|q: int| 0 <= q < sorted@.len() ==> (#[trigger] sorted@[q]).wf(),
        forall|j: int|
            1 <= j < sorted@.len() ==> (#[trigger] sorted@[j]).spec_minute_begin() > sorted@[j
                - 1].spec_minute_end(),
    ensures
        r.0 == day_tally(sorted@, sorted@.len() as int).0,
        r.1 == day_tally(sorted@, sorted@.len() as int).1,
        r.2 == day_tally(sorted@, sorted@.len() as int).2,
        r.0 <= 1440,
        r.1 <= 12,
        r.2 <= 1440,
{
    let ghost sd = sorted@;
    let mut day_idle: u32 = 0;
    let mut day_trips: u32 = 0;
    let mut day_trip_minutes: u32 = 0;
    let mut k: usize = 1;
    while k < sorted.len()
        invariant
            1 <= k,
            sorted@.len() > 0 ==> k <= sorted@.len(),
            sd == sorted@,
            sd.len() <= 1 ==> k == 1,
            forall|q: int| 0 <= q < sd.len() ==> (#[trigger] sd[q]).wf(),
            forall|j: int|
                1 <= j < sd.len() ==> (#[trigger] sd[j]).spec_minute_begin() > sd[
                    j - 1].spec_minute_end(),
            day_idle == day_tally(sd, k as int).0,
            day_trips == day_tally(sd, k as int).1,
            day_trip_minutes == day_tally(sd, k as int).2,
            k <= sd.len() ==> day_idle + day_trip_minutes <= sd[k - 1].spec_minute_begin(),
            day_trips * TRIP_THRESHOLD_MINUTES <= day_trip_minutes,
            day_idle <= 1440 && day_trip_minutes <= 1440 && day_trips <= 12,
        decreases sd.len() - k,
    {
        let first_end = sorted[k - 1].minute_end();
        let second_begin = sorted[k].minute_begin();
        let gap = second_begin - first_end;
        proof {
            assert(gap == gap_at(sd, k as int));
            lemma_day_tally_bounds(sd, k + 1);
        }
        if gap < TRIP_THRESHOLD_MINUTES {
            if gap != BUFFER_MINUTES {
                day_idle = day_idle + gap;
            }
        } else {
            day_trips = day_trips + 1;
            day_trip_minutes = day_trip_minutes + gap;
        }
        k += 1;
    }
    proof {
        if sd.len() <= 1 {
            assert(day_tally(sd, k as int) == (0int, 0int, 0int));
            assert(day_tally(sd, sd.len() as int) == (0int, 0int, 0int));
        }
    }
    (day_idle, day_trips, day_trip_minutes)
}

#[verifier::rlimit(100)]
pub fn schedule_bs_time(sched: &Vec<Section>) -> (r: TimeAnalysis)
    requires
        all_times_wf(all_times(sched.deep_view())),
        strictly_separated(all_times(sched.deep_view())),
    ensures
        r.bs_time == spec_time_analysis(sched.deep_view()).0,
        r.back_to_dorm_count == spec_time_analysis(sched.deep_view()).1,
        r.back_to_dorm_minutes == spec_time_analysis(sched.deep_view()).2,
        r.bs_time <= 7200,
        r.back_to_dorm_count <= 60,
        r.back_to_dorm_minutes <= 7200,
{
    let ghost dv = sched.deep_view();
    let mut bs_time: u32 = 0;
    let mut back_to_dorm_count: u32 = 0;
    let mut back_to_dorm_minutes: u32 = 0;
    let mut d: u8 = 0;
    while d < 5
        invariant
            d <= 5,
            dv == sched.deep_view(),
            all_times_wf(all_times(dv)),
            strictly_separated(all_times(dv)),
            bs_time == spec_tally_upto(dv, d as int).0,
            back_to_dorm_count == spec_tally_upto(dv, d as int).1,
            back_to_dorm_minutes == spec_tally_upto(dv, d as int).2,
            bs_time <= 1440 * d,
            back_to_dorm_count <= 12 * d,
            back_to_dorm_minutes <= 1440 * d,
        decreases 5 - d,
    {
        let bucket = collect_day(sched, d);
        proof {
            assert forall|q: int| 0 <= q < bucket@.len() implies (#[trigger] bucket@[q]).wf() by {
                assert(day_times(dv, d as int).contains(bucket@[q]));
                lemma_filter_subset(all_times(dv), on_day(d as int), bucket@[q]);
                let p = choose|p: int|
                    0 <= p < all_times(dv).len() && all_times(dv)[p] == bucket@[q];
            }
        }
        let sorted = sort_times(bucket);
        let ghost sd = sorted_day(dv, d as int);
        proof {
            lemma_td_leq_total_ordering();
            day_times(dv, d as int).lemma_sort_by_ensures(td_leq_fn());
            lemma_sorted_unique(sorted@, sd, td_leq_fn());
            assert(sorted@ == sd);
            lemma_rearranged_separated(all_times(dv), sorted@, d as int);
            lemma_sorted_gaps_positive(sorted@);
        }
        let day = tally_sorted_day(&sorted);
        proof {
            assert(spec_tally_upto(dv, d + 1).0 == spec_tally_upto(dv, d as int).0 + day_tally(
                sd,
                sd.len() as int,
            ).0);
        }
        bs_time = bs_time + day.0;
        back_to_dorm_count = back_to_dorm_count + day.1;
        back_to_dorm_minutes = back_to_dorm_minutes + day.2;
        d += 1;
    }
    TimeAnalysis { back_to_dorm_count, back_to_dorm_minutes, bs_time }
}

/// Every block of the flattened assignment belongs to one of its sections.
pub proof fn lemma_all_times_membership(sched: Seq<SectionView>)
    ensures
        forall|k: int|
            #![trigger all_times(sched)[k]]
            0 <= k < all_times(sched).len() ==> exists|i: int|
                0 <= i < sched.len() && (#[trigger] sched[i]).times.contains(all_times(sched)[k]),
    decreases sched.len(),
{
    if sched.len() == 0 {
        assert(times_of(sched) =~= Seq::<Seq<TimeDuration>>::empty());
        assert(all_times(sched) =~= Seq::<TimeDuration>::empty());
    } else {
        let dl = sched.drop_last();
        lemma_all_times_membership(dl);
        assert(times_of(sched) =~= times_of(dl).push(sched.last().times));
        times_of(dl).lemma_flatten_push(sched.last().times);
        assert(all_times(sched) =~= all_times(dl) + sched.last().times);
        assert forall|k: int|
            #![trigger all_times(sched)[k]]
            0 <= k < all_times(sched).len() implies exists|i: int|
            0 <= i < sched.len() && (#[trigger] sched[i]).times.contains(all_times(sched)[k]) by {
            if k < all_times(dl).len() {
                assert(all_times(sched)[k] == all_times(dl)[k]);
                let i = choose|i: int|
                    0 <= i < dl.len() && (#[trigger] dl[i]).times.contains(all_times(dl)[k]);
                assert(sched[i] == dl[i]);
                assert(sched[i].times.contains(all_times(sched)[k]));
            } else {
                let j = k - all_times(dl).len();
                assert(all_times(sched)[k] == sched.last().times[j]);
                assert(sched[sched.len() - 1].times.contains(all_times(sched)[k]));
            }
        }
    }
}

/// The flattened blocks of a conflict-free assignment of well-formed
/// sections are well formed and strictly separated: blocks within one
/// section are separated by the section's own invariant, and blocks of
/// different sections by the absence of conflicts.
pub proof fn lemma_assignment_scorable(sched: Seq<SectionView>)
    requires
        crate::course::all_sections_wf(sched),
        crate::course::stack_ok(sched),
    ensures
        all_times_wf(all_times(sched)),
        strictly_separated(all_times(sched)),
    decreases sched.len(),
{
    if sched.len() == 0 {
        assert(times_of(sched) =~= Seq::<Seq<TimeDuration>>::empty());
        assert(all_times(sched) =~= Seq::<TimeDuration>::empty());
    } else {
        let dl = sched.drop_last();
        let last = sched.last();
        assert(crate::course::all_sections_wf(dl)) by {
            assert(forall|p: int| 0 <= p < dl.len() ==> dl[p] == sched[p]);
        }
        assert(crate::course::stack_ok(dl)) by {
            assert(forall|p: int| 0 <= p < dl.len() ==> dl[p] == sched[p]);
        }
        lemma_assignment_scorable(dl);
        lemma_all_times_membership(dl);
        assert(times_of(sched) =~= times_of(dl).push(last.times));
        times_of(dl).lemma_flatten_push(last.times);
        assert(all_times(sched) =~= all_times(dl) + last.times);
        let a = all_times(dl);
        let full = all_times(sched);
        assert(last.wf());
        assert forall|k: int| 0 <= k < full.len() implies (#[trigger] full[k]).wf() by {
            if k < a.len() {
                assert(full[k] == a[k]);
            } else {
                assert(full[k] == last.times[k - a.len()]);
            }
        }
        assert forall|k1: int, k2: int|
            0 <= k1 < full.len() && 0 <= k2 < full.len() && k1 != k2 && (#[trigger] full[k1]).day
                == (#[trigger] full[k2]).day implies full[k1].spec_minute_end()
            < full[k2].spec_minute_begin() || full[k2].spec_minute_end()
            < full[k1].spec_minute_begin() by {
            if k1 < a.len() && k2 < a.len() {
                assert(full[k1] == a[k1] && full[k2] == a[k2]);
            } else if k1 >= a.len() && k2 >= a.len() {
                assert(full[k1] == last.times[k1 - a.len()]);
                assert(full[k2] == last.times[k2 - a.len()]);
            } else if k1 < a.len() {
                lemma_cross_section_separated(sched, a, k1, k2);
            } else {
                lemma_cross_section_separated(sched, a, k2, k1);
            }
        }
    }
}

/// A block of an earlier section and a same-day block of the last section
/// of a conflict-free assignment are strictly separated.
proof fn lemma_cross_section_separated(sched: Seq<SectionView>, a: Seq<TimeDuration>, k1: int, k2: int)
    requires
        sched.len() > 0,
        crate::course::stack_ok(sched),
        a == all_times(sched.drop_last()),
        all_times(sched) =~= a + sched.last().times,
        forall|k: int|
            #![trigger a[k]]
            0 <= k < a.len() ==> exists|i: int|
                0 <= i < sched.drop_last().len() && (#[trigger] sched.drop_last()[i]).times.contains(
                    a[k],
                ),
        0 <= k1 < a.len(),
        a.len() <= k2 < all_times(sched).len(),
        all_times(sched)[k1].day == all_times(sched)[k2].day,
    ensures
        all_times(sched)[k1].spec_minute_end() < all_times(sched)[k2].spec_minute_begin()
            || all_times(sched)[k2].spec_minute_end() < all_times(sched)[k1].spec_minute_begin(),
{
    let dl = sched.drop_last();
    let last = sched.last();
    let x1 = all_times(sched)[k1];
    let x2 = all_times(sched)[k2];
    assert(x1 == a[k1]);
    assert(x2 == last.times[k2 - a.len()]);
    let i = choose|i: int| 0 <= i < dl.len() && (#[trigger] dl[i]).times.contains(a[k1]);
    let j = choose|j: int| 0 <= j < dl[i].times.len() && dl[i].times[j] == x1;
    assert(sched[i] == dl[i]);
    assert(!sched[i].spec_conflicts(sched[sched.len() - 1]));
    assert(!sched[i].times[j].spec_intersects(last.times[k2 - a.len()]));
}

/// The credit-hour sum of an assignment is bounded by 255 per section.
pub proof fn lemma_credit_hours_bound(sched: Seq<SectionView>)
    ensures
        spec_credit_hours(sched) <= sched.len() * 255,
    decreases sched.len(),
{
    if sched.len() > 0 {
        lemma_credit_hours_bound(sched.drop_last());
        assert((sched.len() - 1) * 255 + 255 == sched.len() * 255) by (nonlinear_arith);
    }
}

/// One scored assignment: the chosen sections, the raw day-quality metrics,
/// and the folded scalar score.
#[derive(Debug)]
pub struct EvaluatedSchedule {
    pub schedule: Vec<Section>,
    pub s_time: u32,
    pub start_time_dt: u32,
    pub bs_time: u32,
    pub back_to_dorm_count: u32,
    pub back_to_dorm_minutes: u32,
    pub score: Score,
}

/// The mathematical value of an `EvaluatedSchedule`.
#[verifier::ext_equal]
pub ghost struct EvaluatedScheduleView {
    pub schedule: Seq<SectionView>,
    pub s_time: u32,
    pub start_time_dt: u32,
    pub bs_time: u32,
    pub back_to_dorm_count: u32,
    pub back_to_dorm_minutes: u32,
    pub score: Score,
}

impl View for EvaluatedSchedule {
    type V = EvaluatedScheduleView;

    open spec fn view(&self) -> EvaluatedScheduleView {
        EvaluatedScheduleView {
            schedule: self.schedule.deep_view(),
            s_time: self.s_time,
            start_time_dt: self.start_time_dt,
            bs_time: self.bs_time,
            back_to_dorm_count: self.back_to_dorm_count,
            back_to_dorm_minutes: self.back_to_dorm_minutes,
            score: self.score,
        }
    }
}

impl DeepView for EvaluatedSchedule {
    type V = EvaluatedScheduleView;

    open spec fn deep_view(&self) -> EvaluatedScheduleView {
        self.view()
    }
}

/// An assignment is feasible when its total credit hours lie within the
/// inclusive credit-hour bounds.
pub open spec fn spec_feasible(sched: Seq<SectionView>) -> bool {
    MIN_CREDIT_HOURS <= spec_credit_hours(sched) && spec_credit_hours(sched) <= MAX_CREDIT_HOURS
}

/// The scalar score times `SCORE_SCALE`: hours of start-time deviation and
/// idle minutes count one point each, every trip costs `TRIP_COUNT_PENALTY`
/// points, and trip minutes count one point per `SCORE_SCALE` minutes.
pub open spec fn spec_scaled_score(sched: Seq<SectionView>) -> int {
    -(spec_start_dt(sched) * SCORE_SCALE + spec_time_analysis(sched).0 * SCORE_SCALE
        + spec_time_analysis(sched).1 * (TRIP_COUNT_PENALTY * SCORE_SCALE) + spec_time_analysis(
        sched,
    ).2)
}

/// The score of an assignment: negative infinity when infeasible, otherwise
/// the scaled composite penalty.
pub open spec fn spec_score(sched: Seq<SectionView>) -> Score {
    if spec_feasible(sched) {
        Score::Finite(spec_scaled_score(sched) as i64)
    } else {
        Score::NegInfinity
    }
}

/// Score one candidate assignment.  The assignment keeps its sections; the
/// metric fields hold the day-quality metrics, and the score is negative
/// infinity exactly when the credit-hour bound is violated.
pub fn evaluate_schedule(sched: Vec<Section>) -> (r: EvaluatedSchedule)
    requires
        sched.deep_view().len() > 0,
        forall|p: int|
            0 <= p < sched.deep_view().len() ==> (#[trigger] sched.deep_view()[p]).times.len() > 0,
        all_times_wf(all_times(sched.deep_view())),
        strictly_separated(all_times(sched.deep_view())),
        spec_credit_hours(sched.deep_view()) <= u32::MAX,
    ensures
        r@.schedule == sched.deep_view(),
        r.s_time == spec_starting_time(sched.deep_view()),
        r.start_time_dt == spec_start_dt(sched.deep_view()),
        r.bs_time == spec_time_analysis(sched.deep_view()).0,
        r.back_to_dorm_count == spec_time_analysis(sched.deep_view()).1,
        r.back_to_dorm_minutes == spec_time_analysis(sched.deep_view()).2,
        r.score == spec_score(sched.deep_view()),
        spec_feasible(sched.deep_view()) <==> r.score is Finite,
{
    let ghost dv = sched.deep_view();
    let credit_hours = schedule_credit_hours(&sched);
    let s_time = schedule_starting_time(&sched);
    let analysis = schedule_bs_time(&sched);
    let start_time_dt = if s_time >= 12 {
        s_time - 12
    } else {
        12 - s_time
    };
    let dt64: i64 = start_time_dt as i64;
    let bs64: i64 = analysis.bs_time as i64;
    let cnt64: i64 = analysis.back_to_dorm_count as i64;
    let min64: i64 = analysis.back_to_dorm_minutes as i64;
    let penalty: i64 = dt64 * 100 + bs64 * 100 + cnt64 * 2000 + min64;
    proof {
        assert(penalty == spec_start_dt(dv) * SCORE_SCALE + spec_time_analysis(dv).0 * SCORE_SCALE
            + spec_time_analysis(dv).1 * (TRIP_COUNT_PENALTY * SCORE_SCALE) + spec_time_analysis(
            dv,
        ).2);
    }
    let score = if credit_hours < MIN_CREDIT_HOURS || credit_hours > MAX_CREDIT_HOURS {
        Score::NegInfinity
    } else {
        Score::Finite(-penalty)
    };
    EvaluatedSchedule {
        schedule: sched,
        s_time,
        start_time_dt,
        bs_time: analysis.bs_time,
        back_to_dorm_count: analysis.back_to_dorm_count,
        back_to_dorm_minutes: analysis.back_to_dorm_minutes,
        score,
    }
}

} // verus!
