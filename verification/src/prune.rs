//! The dominance filter: reduce the scored assignments to the subset not
//! strictly dominated by any other member, over the four raw quality
//! metrics, keeping the original relative order.
use vstd::prelude::*;
use vstd::relations::sorted_by;
use crate::course::clone_stack;
use crate::score::{EvaluatedSchedule, EvaluatedScheduleView, Score};

verus! {

/// Score order: negative infinity lies below every finite score, and finite
/// scores compare as their scaled values.
pub open spec fn score_le(a: Score, b: Score) -> bool {
    match (a, b) {
        (Score::NegInfinity, _) => true,
        (Score::Finite(_), Score::NegInfinity) => false,
        (Score::Finite(x), Score::Finite(y)) => x <= y,
    }
}

/// The descending-by-score order the ranked list is sorted in.
pub open spec fn score_desc_fn() -> spec_fn(EvaluatedScheduleView, EvaluatedScheduleView) -> bool {
    |a: EvaluatedScheduleView, b: EvaluatedScheduleView| score_le(b.score, a.score)
}

proof fn lemma_score_desc_properties()
    ensures
        forall|a: EvaluatedScheduleView, b: EvaluatedScheduleView|
            #[trigger] score_desc_fn()(a, b) || #[trigger] score_desc_fn()(b, a),
        forall|a: EvaluatedScheduleView, b: EvaluatedScheduleView, c: EvaluatedScheduleView|
            #[trigger] score_desc_fn()(a, b) && #[trigger] score_desc_fn()(b, c)
                ==> score_desc_fn()(a, c),
{
}

/// Compare two scores; is the first at least the second?
fn score_ge_exec(a: &Score, b: &Score) -> (r: bool)
    ensures
        r == score_le(*b, *a),
{
    match (*a, *b) {
        (_, Score::NegInfinity) => true,
        (Score::NegInfinity, Score::Finite(_)) => false,
        (Score::Finite(x), Score::Finite(y)) => x >= y,
    }
}

/// `a` strictly dominates `b`: no worse on any of the four minimize-type
/// metrics, and strictly better on at least one.
pub open spec fn spec_dominates(a: EvaluatedScheduleView, b: EvaluatedScheduleView) -> bool {
    &&& a.start_time_dt <= b.start_time_dt
    &&& a.bs_time <= b.bs_time
    &&& a.back_to_dorm_count <= b.back_to_dorm_count
    &&& a.back_to_dorm_minutes <= b.back_to_dorm_minutes
    &&& (a.start_time_dt < b.start_time_dt || a.bs_time < b.bs_time || a.back_to_dorm_count
        < b.back_to_dorm_count || a.back_to_dorm_minutes < b.back_to_dorm_minutes)
}

/// Some member of `s` strictly dominates `x`.
pub open spec fn dominated_in(s: Seq<EvaluatedScheduleView>, x: EvaluatedScheduleView) -> bool {
    exists|j: int| 0 <= j < s.len() && spec_dominates(#[trigger] s[j], x)
}

/// What the dominance filter keeps: the members not strictly dominated by
/// any member, in their original order.
pub open spec fn prune_spec(s: Seq<EvaluatedScheduleView>) -> Seq<EvaluatedScheduleView> {
    s.filter(|x: EvaluatedScheduleView| !dominated_in(s, x))
}

impl EvaluatedSchedule {
    /// Does this assignment strictly dominate `other`?
    pub fn is_strictly_better_than(&self, other: &Self) -> (r: bool)
        ensures
            r == spec_dominates(self.deep_view(), other.deep_view()),
    {
        let no_worse = self.start_time_dt <= other.start_time_dt && self.bs_time <= other.bs_time
            && self.back_to_dorm_count <= other.back_to_dorm_count && self.back_to_dorm_minutes
            <= other.back_to_dorm_minutes;
        let better = self.start_time_dt < other.start_time_dt || self.bs_time < other.bs_time
            || self.back_to_dorm_count < other.back_to_dorm_count || self.back_to_dorm_minutes
            < other.back_to_dorm_minutes;
        no_worse && better
    }
}

/// Duplicate a scored assignment; the copy has the same mathematical value.
fn clone_evaluated(e: &EvaluatedSchedule) -> (r: EvaluatedSchedule)
    ensures
        r.deep_view() == e.deep_view(),
{
    let r = EvaluatedSchedule {
        schedule: clone_stack(&e.schedule),
        s_time: e.s_time,
        start_time_dt: e.start_time_dt,
        bs_time: e.bs_time,
        back_to_dorm_count: e.back_to_dorm_count,
        back_to_dorm_minutes: e.back_to_dorm_minutes,
        score: e.score,
    };
    assert(r.deep_view() =~= e.deep_view());
    r
}

/// A member strictly dominated by another member is excluded from the
/// filtered output.
pub proof fn lemma_dominated_is_excluded(s: Seq<EvaluatedScheduleView>, i: int, j: int)
    requires
        0 <= i < s.len(),
        0 <= j < s.len(),
        spec_dominates(s[j], s[i]),
    ensures
        !prune_spec(s).contains(s[i]),
{
    let pred = |x: EvaluatedScheduleView| !dominated_in(s, x);
    assert(dominated_in(s, s[i]));
    if prune_spec(s).contains(s[i]) {
        let k = choose|k: int| 0 <= k < prune_spec(s).len() && prune_spec(s)[k] == s[i];
        s.lemma_filter_pred(pred, k);
    }
}

/// Two assignments with identical metric tuples never dominate one another.
pub proof fn lemma_equal_metrics_mutually_undominating(
    a: EvaluatedScheduleView,
    b: EvaluatedScheduleView,
)
    requires
        a.start_time_dt == b.start_time_dt,
        a.bs_time == b.bs_time,
        a.back_to_dorm_count == b.back_to_dorm_count,
        a.back_to_dorm_minutes == b.back_to_dorm_minutes,
    ensures
        !spec_dominates(a, b),
        !spec_dominates(b, a),
{
}

/// Two members with identical metric tuples are both retained, provided no
/// member dominates them (a dominator of one would dominate both).
pub proof fn lemma_equal_metrics_both_retained(s: Seq<EvaluatedScheduleView>, i: int, j: int)
    requires
        0 <= i < s.len(),
        0 <= j < s.len(),
        s[i].start_time_dt == s[j].start_time_dt,
        s[i].bs_time == s[j].bs_time,
        s[i].back_to_dorm_count == s[j].back_to_dorm_count,
        s[i].back_to_dorm_minutes == s[j].back_to_dorm_minutes,
        !dominated_in(s, s[i]),
    ensures
        !dominated_in(s, s[j]),
        prune_spec(s).contains(s[i]),
        prune_spec(s).contains(s[j]),
{
    let pred = |x: EvaluatedScheduleView| !dominated_in(s, x);
    assert forall|k: int| 0 <= k < s.len() implies !spec_dominates(#[trigger] s[k], s[j]) by {
        if spec_dominates(s[k], s[j]) {
            assert(spec_dominates(s[k], s[i]));
        }
    }
    assert(pred(s[i]));
    assert(pred(s[j]));
    s.lemma_filter_contains(pred, i);
    s.lemma_filter_contains(pred, j);
}

/// Rank the scored assignments by scalar score, best first.
pub fn sort_schedules_by_score(v: &Vec<EvaluatedSchedule>) -> (r: Vec<EvaluatedSchedule>)
    ensures
        sorted_by(r.deep_view(), score_desc_fn()),
        r.deep_view().to_multiset() == v.deep_view().to_multiset(),
{
    let ghost dv = v.deep_view();
    let ghost desc = score_desc_fn();
    let mut out: Vec<EvaluatedSchedule> = Vec::new();
    let mut i: usize = 0;
    proof {
        assert(dv.take(0) =~= Seq::<EvaluatedScheduleView>::empty());
        assert(out.deep_view() =~= Seq::<EvaluatedScheduleView>::empty());
        assert(out.deep_view().to_multiset() =~= dv.take(0).to_multiset());
    }
    while i < v.len()
        invariant
            i <= dv.len(),
            dv == v.deep_view(),
            dv.len() == v@.len(),
            desc == score_desc_fn(),
            sorted_by(out.deep_view(), desc),
            out.deep_view().to_multiset() == dv.take(i as int).to_multiset(),
        decreases dv.len() - i,
    {
        let x = clone_evaluated(&v[i]);
        let ghost xv = x.deep_view();
        proof {
            assert(v@[i as int]@ == dv[i as int]);
            assert(xv == dv[i as int]);
        }
        let mut p: usize = 0;
        while p < out.len() && score_ge_exec(&out[p].score, &x.score)
            invariant
                p <= out@.len(),
                xv == x.deep_view(),
                desc == score_desc_fn(),
                forall|q: int| 0 <= q < p ==> #[trigger] desc(out.deep_view()[q], xv),
            decreases out@.len() - p,
        {
            proof {
                assert(out.deep_view()[p as int].score == out@[p as int].score);
            }
            p += 1;
        }
        let ghost before = out.deep_view();
        proof {
            if p < out@.len() {
                assert(out.deep_view()[p as int].score == out@[p as int].score);
                assert(!score_le(xv.score, before[p as int].score));
                assert(desc(xv, before[p as int]));
            }
            lemma_score_desc_properties();
        }
        out.insert(p, x);
        proof {
            assert forall|k: int| 0 <= k < out@.len() implies #[trigger] out.deep_view()[k]
                == before.insert(p as int, xv)[k] by {
                before.insert_ensures(p as int, xv);
                if k < p {
                } else if k == p {
                } else {
                }
            }
            assert(out.deep_view() =~= before.insert(p as int, xv));
            before.insert_ensures(p as int, xv);
            let cur = out.deep_view();
            assert forall|m: int, n: int| 0 <= m < n < cur.len() implies #[trigger] desc(
                cur[m],
                cur[n],
            ) by {
                if n < p {
                    assert(cur[m] == before[m] && cur[n] == before[n]);
                    assert(desc(before[m], before[n]));
                } else if n == p {
                    assert(cur[m] == before[m] && cur[n] == xv);
                    assert(desc(before[m], xv));
                } else {
                    assert(cur[n] == before[n - 1]);
                    if m < p {
                        assert(cur[m] == before[m]);
                        assert(desc(before[m], before[n - 1]));
                    } else if m == p {
                        assert(cur[m] == xv);
                        assert(desc(xv, before[p as int]));
                        if (p as int) < n - 1 {
                            assert(desc(before[p as int], before[n - 1]));
                        }
                    } else {
                        assert(cur[m] == before[m - 1]);
                        assert(desc(before[m - 1], before[n - 1]));
                    }
                }
            }
            vstd::seq_lib::to_multiset_insert(before, p as int, xv);
            assert(dv.take(i + 1).drop_last() =~= dv.take(i as int));
            assert(dv.take(i + 1) =~= dv.take(i as int).push(xv));
            dv.take(i as int).to_multiset_ensures();
            assert(dv.take(i + 1).to_multiset() =~= dv.take(i as int).to_multiset().insert(xv));
            assert(out.deep_view().to_multiset() == dv.take(i + 1).to_multiset());
        }
        i += 1;
    }
    proof {
        assert(dv.take(dv.len() as int) =~= dv);
    }
    out
}

/// Mark every strictly dominated assignment, then return the unmarked ones
/// in their original order.  Marks come from one pass over the original
/// list: dominance is decided between original members only.
pub fn prune(v: &mut Vec<EvaluatedSchedule>) -> (r: Vec<EvaluatedSchedule>)
    ensures
        *final(v) == *old(v),
        r.deep_view() == prune_spec(old(v).deep_view()),
{
    broadcast use Seq::lemma_filter_push;

    let ghost dv = v.deep_view();
    let ghost pred = |x: EvaluatedScheduleView| !dominated_in(dv, x);
    let n = v.len();
    let mut marked: Vec<bool> = Vec::new();
    let mut i: usize = 0;
    while i < n
        invariant
            i <= n,
            n == v@.len(),
            dv == v.deep_view(),
            marked@.len() == i,
            forall|q: int| 0 <= q < i ==> marked@[q] == dominated_in(dv, dv[q]),
        decreases n - i,
    {
        let mut dom = false;
        let mut j: usize = 0;
        while j < n
            invariant
                i < n,
                j <= n,
                n == v@.len(),
                dv == v.deep_view(),
                dom == exists|q: int| 0 <= q < j && spec_dominates(#[trigger] dv[q], dv[i as int]),
            decreases n - j,
        {
            proof {
                assert(v@[j as int]@ == dv[j as int]);
                assert(v@[i as int]@ == dv[i as int]);
            }
            if v[j].is_strictly_better_than(&v[i]) {
                dom = true;
            }
            j += 1;
        }
        marked.push(dom);
        i += 1;
    }
    let mut ret: Vec<EvaluatedSchedule> = Vec::new();
    let mut i: usize = 0;
    proof {
        reveal(Seq::filter);
        assert(dv.take(0) =~= Seq::<EvaluatedScheduleView>::empty());
        assert(ret.deep_view() =~= dv.take(0).filter(pred));
    }
    while i < n
        invariant
            i <= n,
            n == v@.len(),
            dv == v.deep_view(),
            marked@.len() == n,
            pred == (|x: EvaluatedScheduleView| !dominated_in(dv, x)),
            forall|q: int| 0 <= q < n ==> marked@[q] == dominated_in(dv, dv[q]),
            ret.deep_view() == dv.take(i as int).filter(pred),
        decreases n - i,
    {
        proof {
            assert(dv.take(i + 1) =~= dv.take(i as int).push(dv[i as int]));
            dv.take(i as int).lemma_filter_push(dv[i as int], pred);
            assert(dv.take(i as int).push(dv[i as int]).filter(pred) == if pred(dv[i as int]) {
                dv.take(i as int).filter(pred).push(dv[i as int])
            } else {
                dv.take(i as int).filter(pred)
            });
        }
        if !marked[i] {
            let e = clone_evaluated(&v[i]);
            ret.push(e);
            proof {
                assert(v@[i as int]@ == dv[i as int]);
                assert(ret.deep_view() =~= dv.take(i as int).filter(pred).push(dv[i as int]));
                assert(ret.deep_view() =~= dv.take(i + 1).filter(pred));
            }
        } else {
            proof {
                assert(!pred(dv[i as int]));
                assert(ret.deep_view() =~= dv.take(i + 1).filter(pred));
            }
        }
        i += 1;
    }
    proof {
        assert(dv.take(n as int) =~= dv);
        assert(ret.deep_view() == prune_spec(dv));
    }
    ret
}

} // verus!
