//! The end-to-end engine: enumerate every conflict-free assignment, score
//! each one, rank by scalar score, and keep the Pareto frontier.
use vstd::prelude::*;
use vstd::relations::sorted_by;
use crate::course::{all_sections_wf, clone_stack, sections_wf, stack_ok, Course, CourseView, Section, SectionView};
use crate::enumerate::{courses_distinct, enumerate_schedules, is_full_extension};
use crate::prune::{
    dominated_in, prune, prune_spec, score_desc_fn, sort_schedules_by_score, spec_dominates,
};
use crate::score::{
    evaluate_schedule, lemma_assignment_scorable, lemma_credit_hours_bound,
    lemma_filter_no_duplicates, lemma_filter_subset, spec_score, spec_start_dt,
    spec_starting_time, spec_time_analysis, EvaluatedSchedule, EvaluatedScheduleView,
};

verus! {

/// A correctly scored record of some full conflict-free assignment over the
/// listed courses.
pub open spec fn is_evaluation_of(e: EvaluatedScheduleView, courses: Seq<CourseView>) -> bool {
    &&& is_full_extension(e.schedule, Seq::<SectionView>::empty(), courses)
    &&& e.s_time == spec_starting_time(e.schedule)
    &&& e.start_time_dt == spec_start_dt(e.schedule)
    &&& e.bs_time == spec_time_analysis(e.schedule).0
    &&& e.back_to_dorm_count == spec_time_analysis(e.schedule).1
    &&& e.back_to_dorm_minutes == spec_time_analysis(e.schedule).2
    &&& e.score == spec_score(e.schedule)
}

/// Assignment `a`'s metric tuple strictly dominates `b`'s: no worse on any
/// of the four minimize-type metrics and strictly better on at least one.
pub open spec fn spec_metrics_dominate(a: Seq<SectionView>, b: Seq<SectionView>) -> bool {
    &&& spec_start_dt(a) <= spec_start_dt(b)
    &&& spec_time_analysis(a).0 <= spec_time_analysis(b).0
    &&& spec_time_analysis(a).1 <= spec_time_analysis(b).1
    &&& spec_time_analysis(a).2 <= spec_time_analysis(b).2
    &&& (spec_start_dt(a) < spec_start_dt(b) || spec_time_analysis(a).0 < spec_time_analysis(b).0
        || spec_time_analysis(a).1 < spec_time_analysis(b).1 || spec_time_analysis(a).2
        < spec_time_analysis(b).2)
}

/// On correctly scored records, record-level dominance is metric dominance
/// of the underlying assignments.
proof fn lemma_dominates_is_metric_dominance(
    x: EvaluatedScheduleView,
    y: EvaluatedScheduleView,
    courses: Seq<CourseView>,
)
    requires
        is_evaluation_of(x, courses),
        is_evaluation_of(y, courses),
    ensures
        spec_dominates(x, y) == spec_metrics_dominate(x.schedule, y.schedule),
{
}

/// Filtering a sorted sequence keeps it sorted.
proof fn lemma_filter_preserves_sorted<A>(
    s: Seq<A>,
    p: spec_fn(A) -> bool,
    leq: spec_fn(A, A) -> bool,
)
    requires
        sorted_by(s, leq),
    ensures
        sorted_by(s.filter(p), leq),
    decreases s.len(),
{
    reveal(Seq::filter);
    if s.len() > 0 {
        let dl = s.drop_last();
        assert(sorted_by(dl, leq)) by {
            assert forall|i: int, j: int| 0 <= i < j < dl.len() implies #[trigger] leq(
                dl[i],
                dl[j],
            ) by {
                assert(leq(s[i], s[j]));
            }
        }
        lemma_filter_preserves_sorted(dl, p, leq);
        let f = s.filter(p);
        if p(s.last()) {
            assert(f == dl.filter(p).push(s.last()));
            assert forall|m: int, n: int| 0 <= m < n < f.len() implies #[trigger] leq(
                f[m],
                f[n],
            ) by {
                if n < f.len() - 1 {
                    assert(leq(dl.filter(p)[m], dl.filter(p)[n]));
                } else {
                    assert(f[n] == s.last());
                    assert(dl.filter(p).contains(dl.filter(p)[m]));
                    lemma_filter_subset(dl, p, dl.filter(p)[m]);
                    let q = choose|q: int| 0 <= q < dl.len() && dl[q] == dl.filter(p)[m];
                    assert(leq(s[q], s[s.len() - 1]));
                }
            }
        }
    }
}

/// Run the whole engine.  Every returned record correctly scores a full
/// conflict-free assignment; every such assignment whose metric tuple no
/// other strictly dominates is returned; no returned record's tuple is
/// dominated by that of any full assignment; and the list is ordered best
/// score first.
pub fn rank_schedules(courses: &[Course]) -> (r: Vec<EvaluatedSchedule>)
    requires
        courses.deep_view().len() > 0,
        sections_wf(courses.deep_view()),
        courses.deep_view().len() * 255 <= u32::MAX,
    ensures
        forall|k: int|
            0 <= k < r.deep_view().len() ==> is_evaluation_of(
                #[trigger] r.deep_view()[k],
                courses.deep_view(),
            ),
        sorted_by(r.deep_view(), score_desc_fn()),
        forall|i: int, j: int|
            0 <= i < r.deep_view().len() && 0 <= j < r.deep_view().len() && i != j
                ==> !spec_dominates(#[trigger] r.deep_view()[i], #[trigger] r.deep_view()[j]),
        forall|asg: Seq<SectionView>|
            #[trigger] is_full_extension(asg, Seq::<SectionView>::empty(), courses.deep_view())
                && (forall|other: Seq<SectionView>|
                #[trigger] is_full_extension(
                    other,
                    Seq::<SectionView>::empty(),
                    courses.deep_view(),
                ) ==> !spec_metrics_dominate(other, asg)) ==> exists|k: int|
                0 <= k < r.deep_view().len() && (#[trigger] r.deep_view()[k]).schedule == asg,
        forall|k: int, other: Seq<SectionView>|
            0 <= k < r.deep_view().len() && #[trigger] is_full_extension(
                other,
                Seq::<SectionView>::empty(),
                courses.deep_view(),
            ) ==> !spec_metrics_dominate(other, (#[trigger] r.deep_view()[k]).schedule),
        courses_distinct(courses.deep_view()) ==> forall|k1: int, k2: int|
            0 <= k1 < k2 < r.deep_view().len() ==> #[trigger] r.deep_view()[k1]
                != #[trigger] r.deep_view()[k2],
{
    let ghost cv = courses.deep_view();
    let ghost empty_base = Seq::<SectionView>::empty();
    let mut stack: Vec<Section> = Vec::new();
    let mut results: Vec<Vec<Section>> = Vec::new();
    proof {
        assert(stack.deep_view() =~= empty_base);
    }
    enumerate_schedules(courses, &mut stack, &mut results);
    proof {
        assert forall|asg: Seq<SectionView>|
            #[trigger] is_full_extension(asg, Seq::<SectionView>::empty(), cv)
            implies exists|k0: int|
            0 <= k0 < results.deep_view().len() && results.deep_view()[k0] == asg by {
            assert(is_full_extension(asg, empty_base, cv));
        }
        if courses_distinct(cv) {
            assert(forall|k1: int, k2: int|
                0 <= k1 < k2 < results.deep_view().len() ==> #[trigger] results.deep_view()[k1]
                    != #[trigger] results.deep_view()[k2]);
        }
    }
    let mut evaluations: Vec<EvaluatedSchedule> = Vec::new();
    let mut i: usize = 0;
    while i < results.len()
        invariant
            i <= results@.len(),
            cv == courses.deep_view(),
            cv.len() > 0,
            sections_wf(cv),
            cv.len() * 255 <= u32::MAX,
            forall|k: int|
                0 <= k < results.deep_view().len() ==> is_full_extension(
                    #[trigger] results.deep_view()[k],
                    Seq::<SectionView>::empty(),
                    cv,
                ),
            results.deep_view().len() == results@.len(),
            evaluations.deep_view().len() == i,
            forall|k: int|
                0 <= k < i ==> is_evaluation_of(#[trigger] evaluations.deep_view()[k], cv),
            forall|k: int|
                0 <= k < i ==> (#[trigger] evaluations.deep_view()[k]).schedule
                    == results.deep_view()[k],
        decreases results@.len() - i,
    {
        let sched = clone_stack(&results[i]);
        let ghost sv = sched.deep_view();
        proof {
            assert(results.deep_view()[i as int] == results@[i as int].deep_view());
            assert(sv == results.deep_view()[i as int]);
            assert(is_full_extension(sv, Seq::<SectionView>::empty(), cv));
            assert forall|p: int| 0 <= p < sv.len() implies (#[trigger] sv[p]).wf() by {
                assert(cv[p].sections.contains(sv[0 + p]));
                let t = choose|t: int|
                    0 <= t < cv[p].sections.len() && cv[p].sections[t] == sv[p];
                assert(cv[p].sections[t].wf());
            }
            assert(all_sections_wf(sv));
            assert(stack_ok(sv));
            lemma_assignment_scorable(sv);
            lemma_credit_hours_bound(sv);
        }
        let e = evaluate_schedule(sched);
        proof {
            assert(is_evaluation_of(e@, cv));
        }
        let ghost before_evals = evaluations.deep_view();
        let ghost before_vec = evaluations@;
        evaluations.push(e);
        proof {
            assert forall|k: int| 0 <= k < i + 1 implies is_evaluation_of(
                #[trigger] evaluations.deep_view()[k],
                cv,
            ) by {
                assert(evaluations.deep_view()[k] == evaluations@[k]@);
                if k < i {
                    assert(evaluations@[k] == before_vec[k]);
                    assert(before_evals[k] == before_vec[k]@);
                    assert(is_evaluation_of(before_evals[k], cv));
                } else {
                    assert(evaluations@[k] == e);
                }
            }
            assert forall|k: int| 0 <= k < i + 1 implies (
            #[trigger] evaluations.deep_view()[k]).schedule == results.deep_view()[k] by {
                assert(evaluations.deep_view()[k] == evaluations@[k]@);
                if k < i {
                    assert(evaluations@[k] == before_vec[k]);
                    assert(before_evals[k] == before_vec[k]@);
                } else {
                    assert(evaluations@[k] == e);
                    assert(e@.schedule == sv);
                }
            }
        }
        i += 1;
    }
    let sorted = sort_schedules_by_score(&evaluations);
    proof {
        let sdv = sorted.deep_view();
        let edv = evaluations.deep_view();
        sdv.to_multiset_ensures();
        edv.to_multiset_ensures();
        assert forall|k: int| 0 <= k < sdv.len() implies is_evaluation_of(
            #[trigger] sdv[k],
            cv,
        ) by {
            assert(sdv.contains(sdv[k]));
            assert(sdv.to_multiset().count(sdv[k]) > 0);
            assert(edv.contains(sdv[k]));
            let q = choose|q: int| 0 <= q < edv.len() && edv[q] == sdv[k];
            assert(is_evaluation_of(edv[q], cv));
        }
    }
    let mut ranked = sorted;
    let r = prune(&mut ranked);
    proof {
        let sdv = ranked.deep_view();
        let rdv = r.deep_view();
        assert(rdv == prune_spec(sdv));
        let pred = |x: EvaluatedScheduleView| !dominated_in(sdv, x);
        lemma_filter_preserves_sorted(sdv, pred, score_desc_fn());
        assert forall|k: int| 0 <= k < rdv.len() implies is_evaluation_of(
            #[trigger] rdv[k],
            cv,
        ) by {
            assert(rdv.contains(rdv[k]));
            lemma_filter_subset(sdv, pred, rdv[k]);
            let q = choose|q: int| 0 <= q < sdv.len() && sdv[q] == rdv[k];
            assert(is_evaluation_of(sdv[q], cv));
        }
        assert forall|a: int, b: int|
            0 <= a < rdv.len() && 0 <= b < rdv.len() && a != b implies !spec_dominates(
            #[trigger] rdv[a],
            #[trigger] rdv[b],
        ) by {
            sdv.lemma_filter_pred(pred, b);
            assert(!dominated_in(sdv, rdv[b]));
            assert(rdv.contains(rdv[a]));
            lemma_filter_subset(sdv, pred, rdv[a]);
            let q = choose|q: int| 0 <= q < sdv.len() && sdv[q] == rdv[a];
            assert(!spec_dominates(sdv[q], rdv[b]));
        }
        let edv = evaluations.deep_view();
        let rsv = results.deep_view();
        sdv.to_multiset_ensures();
        edv.to_multiset_ensures();
        // Completeness: the evaluation of every full assignment whose metric
        // tuple no full assignment strictly dominates survives both the sort
        // and the dominance filter.
        assert forall|asg: Seq<SectionView>|
            #[trigger] is_full_extension(asg, Seq::<SectionView>::empty(), cv) && (forall|
                other: Seq<SectionView>,
            |
                #[trigger] is_full_extension(other, Seq::<SectionView>::empty(), cv)
                    ==> !spec_metrics_dominate(other, asg)) implies exists|k: int|
            0 <= k < rdv.len() && (#[trigger] rdv[k]).schedule == asg by {
            let k0 = choose|k0: int| 0 <= k0 < rsv.len() && rsv[k0] == asg;
            let x = edv[k0];
            assert(x.schedule == asg);
            assert(is_evaluation_of(x, cv));
            assert(edv.contains(x));
            assert(edv.to_multiset().count(x) > 0);
            assert(sdv.to_multiset() == edv.to_multiset());
            assert(sdv.to_multiset().count(x) > 0);
            assert(sdv.contains(x));
            let q = choose|q: int| 0 <= q < sdv.len() && sdv[q] == x;
            assert(pred(x)) by {
                if dominated_in(sdv, x) {
                    let j = choose|j: int|
                        0 <= j < sdv.len() && spec_dominates(#[trigger] sdv[j], x);
                    assert(is_evaluation_of(sdv[j], cv));
                    lemma_dominates_is_metric_dominance(sdv[j], x, cv);
                    assert(is_full_extension(sdv[j].schedule, Seq::<SectionView>::empty(), cv));
                    assert(!spec_metrics_dominate(sdv[j].schedule, asg));
                }
            }
            sdv.lemma_filter_contains(pred, q);
            assert(prune_spec(sdv).contains(x));
            let k = choose|k: int| 0 <= k < rdv.len() && rdv[k] == x;
            assert(rdv[k].schedule == asg);
        }
        // No member's metric tuple is dominated by that of any full
        // assignment, listed in the result or not.
        assert forall|k: int, other: Seq<SectionView>|
            0 <= k < rdv.len() && #[trigger] is_full_extension(
                other,
                Seq::<SectionView>::empty(),
                cv,
            ) implies !spec_metrics_dominate(other, (#[trigger] rdv[k]).schedule) by {
            sdv.lemma_filter_pred(pred, k);
            assert(!dominated_in(sdv, rdv[k]));
            let k0 = choose|k0: int| 0 <= k0 < rsv.len() && rsv[k0] == other;
            let y = edv[k0];
            assert(y.schedule == other);
            assert(is_evaluation_of(y, cv));
            assert(edv.contains(y));
            assert(edv.to_multiset().count(y) > 0);
            assert(sdv.to_multiset() == edv.to_multiset());
            assert(sdv.to_multiset().count(y) > 0);
            assert(sdv.contains(y));
            let q = choose|q: int| 0 <= q < sdv.len() && sdv[q] == y;
            if spec_metrics_dominate(other, rdv[k].schedule) {
                assert(is_evaluation_of(rdv[k], cv));
                lemma_dominates_is_metric_dominance(y, rdv[k], cv);
                assert(spec_dominates(sdv[q], rdv[k]));
                assert(dominated_in(sdv, rdv[k]));
            }
        }
        // With distinct sections per course the enumerated assignments are
        // pairwise distinct, and so are their records all the way through.
        if courses_distinct(cv) {
            assert(edv.no_duplicates()) by {
                assert forall|k1: int, k2: int|
                    0 <= k1 < edv.len() && 0 <= k2 < edv.len() && k1 != k2 implies edv[k1]
                    != edv[k2] by {
                    assert(edv[k1].schedule == rsv[k1]);
                    assert(edv[k2].schedule == rsv[k2]);
                    if k1 < k2 {
                        assert(rsv[k1] != rsv[k2]);
                    } else {
                        assert(rsv[k2] != rsv[k1]);
                    }
                }
            }
            edv.lemma_multiset_has_no_duplicates();
            assert(forall|x: EvaluatedScheduleView|
                sdv.to_multiset().contains(x) ==> sdv.to_multiset().count(x) == 1);
            sdv.lemma_multiset_has_no_duplicates_conv();
            lemma_filter_no_duplicates(sdv, pred);
            assert forall|k1: int, k2: int| 0 <= k1 < k2 < rdv.len() implies #[trigger] rdv[k1]
                != #[trigger] rdv[k2] by {
                assert(prune_spec(sdv).no_duplicates());
            }
        }
    }
    r
}

} // verus!
