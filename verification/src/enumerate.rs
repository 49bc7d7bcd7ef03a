//! The enumerator: a depth-first backtracking search that produces every
//! conflict-free assignment of one section per required course.
use vstd::prelude::*;
use vstd::slice::slice_subrange;
use crate::course::{
    all_sections_wf, clone_section, clone_stack, intersects_any_in_stack, lemma_conflicts_symmetric,
    sections_wf, stack_ok, Course, CourseView, Section, SectionView,
};

verus! {

/// The number of unconstrained full assignments: the product, over the
/// listed courses, of how many sections each offers.
pub open spec fn product_counts(courses: Seq<CourseView>) -> nat
    decreases courses.len(),
{
    if courses.len() == 0 {
        1
    } else {
        courses[0].sections.len() * product_counts(courses.drop_first())
    }
}

/// `asg` is a full assignment that extends the already-chosen `base`: it
/// keeps `base` as a prefix, picks one offered section of every listed
/// course in order, and is conflict-free as a whole.
pub open spec fn is_full_extension(
    asg: Seq<SectionView>,
    base: Seq<SectionView>,
    courses: Seq<CourseView>,
) -> bool {
    &&& asg.len() == base.len() + courses.len()
    &&& asg.take(base.len() as int) == base
    &&& forall|i: int|
        0 <= i < courses.len() ==> (#[trigger] courses[i]).sections.contains(
            asg[base.len() + i],
        )
    &&& stack_ok(asg)
}

/// Every listed course offers pairwise distinct sections.  A course that
/// listed one section twice would yield the same assignment once per copy,
/// as the unconstrained product count demands.
pub open spec fn courses_distinct(courses: Seq<CourseView>) -> bool {
    forall|c: int| 0 <= c < courses.len() ==> (#[trigger] courses[c]).sections.no_duplicates()
}

/// No section of any listed course conflicts with a section of another
/// listed course or with an already-chosen section.
pub open spec fn no_cross_conflicts(courses: Seq<CourseView>, base: Seq<SectionView>) -> bool {
    &&& forall|c1: int, s1: int, c2: int, s2: int|
        0 <= c1 < courses.len() && 0 <= s1 < (#[trigger] courses[c1]).sections.len() && 0 <= c2
            < courses.len() && 0 <= s2 < (#[trigger] courses[c2]).sections.len() && c1 != c2
            ==> !(#[trigger] courses[c1].sections[s1]).spec_conflicts(
            #[trigger] courses[c2].sections[s2],
        )
    &&& forall|c: int, s: int, p: int|
        0 <= c < courses.len() && 0 <= s < (#[trigger] courses[c]).sections.len() && 0 <= p
            < base.len() ==> !(#[trigger] courses[c].sections[s]).spec_conflicts(
            #[trigger] base[p],
        )
}

/// Depth-first backtracking search.  `stack` holds the sections already
/// chosen for earlier courses; every full conflict-free extension of it
/// through `courses` is appended to `results`, and nothing else is.  When
/// nothing conflicts, the number of appended assignments is exactly the
/// product of the per-course section counts.
///
/// A search tree over optional courses would also have a take-none branch
/// at every course; since only assignments covering every course are ever
/// recorded, that branch could never contribute a result, and the search
/// here is simplified to take exactly one section per course.  When every
/// course lists pairwise distinct sections, each assignment is recorded
/// exactly once.
pub fn enumerate_schedules(
    courses: &[Course],
    stack: &mut Vec<Section>,
    results: &mut Vec<Vec<Section>>,
)
    requires
        sections_wf(courses.deep_view()),
        all_sections_wf(old(stack).deep_view()),
        stack_ok(old(stack).deep_view()),
    ensures
        final(stack).deep_view() == old(stack).deep_view(),
        final(results).deep_view().len() >= old(results).deep_view().len(),
        forall|k: int|
            0 <= k < old(results).deep_view().len() ==> #[trigger] final(results).deep_view()[k]
                == old(results).deep_view()[k],
        forall|k: int|
            old(results).deep_view().len() <= k < final(results).deep_view().len()
                ==> is_full_extension(
                #[trigger] final(results).deep_view()[k],
                old(stack).deep_view(),
                courses.deep_view(),
            ),
        no_cross_conflicts(courses.deep_view(), old(stack).deep_view())
            ==> final(results).deep_view().len() == old(results).deep_view().len()
                + product_counts(courses.deep_view()),
        forall|asg: Seq<SectionView>|
            #[trigger] is_full_extension(asg, old(stack).deep_view(), courses.deep_view())
                ==> exists|k: int|
                old(results).deep_view().len() <= k < final(results).deep_view().len()
                    && final(results).deep_view()[k] == asg,
        courses_distinct(courses.deep_view()) ==> forall|k1: int, k2: int|
            old(results).deep_view().len() <= k1 < k2 < final(results).deep_view().len()
                ==> #[trigger] final(results).deep_view()[k1]
                != #[trigger] final(results).deep_view()[k2],
    decreases courses@.len(),
{
    let ghost cv = courses.deep_view();
    let ghost base = old(stack).deep_view();
    let ghost res0 = old(results).deep_view();
    if courses.len() == 0 {
        let full = clone_stack(stack);
        results.push(full);
        proof {
            assert(results.deep_view() =~= res0.push(base));
            assert(base.take(base.len() as int) =~= base);
            assert(is_full_extension(base, base, cv));
            // The sole full extension of `base` through no courses is `base`
            // itself, and it was just recorded.
            assert forall|asg: Seq<SectionView>| #[trigger] is_full_extension(asg, base, cv)
                implies exists|k: int|
                res0.len() <= k < results.deep_view().len() && results.deep_view()[k] == asg by {
                assert(asg =~= asg.take(base.len() as int));
                assert(asg == base);
                assert(results.deep_view()[res0.len() as int] == asg);
            }
        }
        return;
    }
    let rest = slice_subrange(courses, 1, courses.len());
    let ghost rv = rest.deep_view();
    proof {
        assert(rv =~= cv.drop_first());
        assert(sections_wf(rv));
    }
    let mut s: usize = 0;
    let n = courses[0].sections.len();
    while s < n
        invariant
            courses@.len() > 0,
            n == courses[0].sections@.len(),
            s <= n,
            cv == courses.deep_view(),
            rv == rest.deep_view(),
            rv =~= cv.drop_first(),
            sections_wf(cv),
            sections_wf(rv),
            all_sections_wf(base),
            stack_ok(base),
            stack.deep_view() == base,
            results.deep_view().len() >= res0.len(),
            forall|k: int|
                0 <= k < res0.len() ==> #[trigger] results.deep_view()[k] == res0[k],
            forall|k: int|
                res0.len() <= k < results.deep_view().len() ==> is_full_extension(
                    #[trigger] results.deep_view()[k],
                    base,
                    cv,
                ),
            no_cross_conflicts(cv, base) ==> results.deep_view().len() == res0.len() + s
                * product_counts(rv),
            forall|asg: Seq<SectionView>|
                #[trigger] is_full_extension(asg, base, cv) && (exists|t: int|
                    0 <= t < s && asg[base.len() as int] == cv[0].sections[t]) ==> exists|k: int|
                    res0.len() <= k < results.deep_view().len() && results.deep_view()[k] == asg,
            courses_distinct(cv) ==> forall|k: int|
                #![trigger results.deep_view()[k]]
                res0.len() <= k < results.deep_view().len() ==> exists|t: int|
                    0 <= t < s && results.deep_view()[k][base.len() as int] == cv[0].sections[t],
            courses_distinct(cv) ==> forall|k1: int, k2: int|
                res0.len() <= k1 < k2 < results.deep_view().len()
                    ==> #[trigger] results.deep_view()[k1] != #[trigger] results.deep_view()[k2],
        decreases n - s,
    {
        let ghost res_before = results.deep_view();
        let section = &courses[0].sections[s];
        proof {
            assert(section@ == cv[0].sections[s as int]);
            assert(section@.wf());
        }
        if !intersects_any_in_stack(section, stack) {
            stack.push(clone_section(section));
            proof {
                let st = stack.deep_view();
                assert(st =~= base.push(section@));
                assert forall|p: int, q: int|
                    0 <= p < st.len() && 0 <= q < st.len() && p != q implies !(#[trigger] st[p])
                    .spec_conflicts(#[trigger] st[q]) by {
                    if q == st.len() - 1 {
                        assert(!section@.spec_conflicts(base[p]));
                        lemma_conflicts_symmetric(st[p], st[q]);
                    } else if p == st.len() - 1 {
                        assert(!section@.spec_conflicts(base[q]));
                    }
                }
                assert(all_sections_wf(st));
            }
            enumerate_schedules(rest, stack, results);
            let ghost st = base.push(section@);
            let ghost before_pop = stack@;
            stack.pop();
            proof {
                assert(stack@ =~= before_pop.subrange(0, before_pop.len() - 1));
                assert forall|k: int| 0 <= k < base.len() implies #[trigger] stack.deep_view()[k]
                    == base[k] by {
                    assert(stack@[k] == before_pop[k]);
                    assert(st[k] == before_pop[k]@);
                }
                assert(stack.deep_view() =~= base);
                // Each assignment the recursive call appended extends `base`
                // through all of `courses`, not just through `rest`.
                assert forall|k: int|
                    res_before.len() <= k < results.deep_view().len() implies is_full_extension(
                    #[trigger] results.deep_view()[k],
                    base,
                    cv,
                ) by {
                    let a = results.deep_view()[k];
                    assert(is_full_extension(a, st, rv));
                    assert(a.take(st.len() as int) == st);
                    assert forall|i: int| 0 <= i < base.len() implies #[trigger] a.take(
                        base.len() as int,
                    )[i] == base[i] by {
                        assert(a.take(st.len() as int)[i] == st[i]);
                    }
                    assert(a.take(base.len() as int) =~= base);
                    assert(a.take(st.len() as int)[base.len() as int] == st[base.len() as int]);
                    assert(a[base.len() as int] == section@);
                    assert(cv[0].sections[s as int] == section@);
                    assert(cv[0].sections.contains(a[base.len() as int]));
                    assert forall|i: int| 0 <= i < cv.len() implies (#[trigger] cv[i])
                        .sections.contains(a[base.len() + i]) by {
                        if i > 0 {
                            assert(rv[i - 1].sections.contains(a[st.len() + (i - 1)]));
                            assert(rv[i - 1] == cv[i]);
                            assert(st.len() + (i - 1) == base.len() + i);
                        }
                    }
                }
                // Completeness: a full extension whose first pick is among
                // the sections tried so far has been recorded — either
                // before this iteration, or by the recursive call.
                assert forall|asg: Seq<SectionView>|
                    #[trigger] is_full_extension(asg, base, cv) && (exists|t: int|
                        0 <= t < s + 1 && asg[base.len() as int] == cv[0].sections[t])
                    implies exists|k: int|
                    res0.len() <= k < results.deep_view().len() && results.deep_view()[k]
                        == asg by {
                    let t = choose|t: int|
                        0 <= t < s + 1 && asg[base.len() as int] == cv[0].sections[t];
                    if asg[base.len() as int] == section@ {
                        assert forall|q: int| 0 <= q < st.len() implies #[trigger] asg.take(
                            st.len() as int,
                        )[q] == st[q] by {
                            if q < base.len() {
                                assert(asg.take(base.len() as int)[q] == base[q]);
                            }
                        }
                        assert(asg.take(st.len() as int) =~= st);
                        assert forall|i: int| 0 <= i < rv.len() implies (#[trigger] rv[i])
                            .sections.contains(asg[st.len() + i]) by {
                            assert(cv[i + 1].sections.contains(asg[base.len() + (i + 1)]));
                            assert(rv[i] == cv[i + 1]);
                            assert(st.len() + i == base.len() + (i + 1));
                        }
                        assert(is_full_extension(asg, st, rv));
                        let k = choose|k: int|
                            res_before.len() <= k < results.deep_view().len()
                                && results.deep_view()[k] == asg;
                        assert(res0.len() <= k);
                    } else {
                        assert(0 <= t < s);
                        let k = choose|k: int|
                            res0.len() <= k < res_before.len() && res_before[k] == asg;
                        assert(results.deep_view()[k] == asg);
                    }
                }
                // Distinctness: entries of different iterations differ in
                // the section picked for the first course; entries of this
                // iteration are distinct by the recursive call's contract.
                if courses_distinct(cv) {
                    assert(courses_distinct(rv)) by {
                        assert forall|c: int| 0 <= c < rv.len() implies (#[trigger] rv[c])
                            .sections.no_duplicates() by {
                            assert(rv[c] == cv[c + 1]);
                        }
                    }
                    assert forall|k: int|
                        #![trigger results.deep_view()[k]]
                        res_before.len() <= k < results.deep_view().len()
                        implies results.deep_view()[k][base.len() as int]
                        == cv[0].sections[s as int] by {
                        let a = results.deep_view()[k];
                        assert(is_full_extension(a, st, rv));
                        assert(a.take(st.len() as int)[base.len() as int] == st[base.len() as int]);
                    }
                    assert forall|k1: int, k2: int|
                        res0.len() <= k1 < k2 < results.deep_view().len()
                        implies #[trigger] results.deep_view()[k1]
                        != #[trigger] results.deep_view()[k2] by {
                        if k2 < res_before.len() {
                            assert(results.deep_view()[k1] == res_before[k1]);
                            assert(results.deep_view()[k2] == res_before[k2]);
                        } else if k1 < res_before.len() {
                            assert(results.deep_view()[k1] == res_before[k1]);
                            let t = choose|t: int|
                                0 <= t < s && res_before[k1][base.len() as int] == cv[0].sections[t];
                            assert(cv[0].sections[t] != cv[0].sections[s as int]);
                            assert(results.deep_view()[k1][base.len() as int]
                                != results.deep_view()[k2][base.len() as int]);
                        }
                    }
                }
                // Under the no-conflict hypothesis the recursive call added
                // exactly the product for the remaining courses.
                assert((s as int + 1) * product_counts(rv) == s as int * product_counts(rv)
                    + product_counts(rv)) by (nonlinear_arith);
                if no_cross_conflicts(cv, base) {
                    assert(no_cross_conflicts(rv, base.push(section@))) by {
                        assert forall|c: int, t: int, p: int|
                            0 <= c < rv.len() && 0 <= t < (#[trigger] rv[c]).sections.len() && 0
                                <= p < base.push(section@).len() implies !(#[trigger] rv[c]
                            .sections[t]).spec_conflicts(
                            #[trigger] base.push(section@)[p],
                        ) by {
                            assert(rv[c] == cv[c + 1]);
                            if p == base.len() {
                                assert(base.push(section@)[p] == cv[0].sections[s as int]);
                            }
                        }
                        assert forall|c1: int, s1: int, c2: int, s2: int|
                            0 <= c1 < rv.len() && 0 <= s1 < (#[trigger] rv[c1]).sections.len()
                                && 0 <= c2 < rv.len() && 0 <= s2
                                < (#[trigger] rv[c2]).sections.len() && c1 != c2 implies !(
                        #[trigger] rv[c1].sections[s1]).spec_conflicts(
                            #[trigger] rv[c2].sections[s2],
                        ) by {
                            assert(rv[c1] == cv[c1 + 1]);
                            assert(rv[c2] == cv[c2 + 1]);
                        }
                    }
                }
            }
        } else {
            proof {
                // A conflict with the stack contradicts the no-conflict
                // hypothesis, so the count clause holds vacuously.
                if no_cross_conflicts(cv, base) {
                    let p = choose|p: int|
                        0 <= p < base.len() && section@.spec_conflicts(#[trigger] base[p]);
                    assert(!(cv[0].sections[s as int]).spec_conflicts(base[p]));
                }
                // No full extension picks this section: it conflicts with a
                // section already on the stack, which every extension keeps.
                assert forall|asg: Seq<SectionView>|
                    #[trigger] is_full_extension(asg, base, cv) && (exists|t: int|
                        0 <= t < s + 1 && asg[base.len() as int] == cv[0].sections[t])
                    implies exists|k: int|
                    res0.len() <= k < results.deep_view().len() && results.deep_view()[k]
                        == asg by {
                    let t = choose|t: int|
                        0 <= t < s + 1 && asg[base.len() as int] == cv[0].sections[t];
                    if asg[base.len() as int] == section@ {
                        let p = choose|p: int|
                            0 <= p < base.len() && section@.spec_conflicts(#[trigger] base[p]);
                        assert(asg.take(base.len() as int)[p] == base[p]);
                        assert(asg[p] == base[p]);
                        assert(!(asg[base.len() as int]).spec_conflicts(asg[p]));
                        assert(false);
                    } else {
                        assert(0 <= t < s);
                        let k = choose|k: int|
                            res0.len() <= k < res_before.len() && res_before[k] == asg;
                        assert(results.deep_view()[k] == asg);
                    }
                }
            }
        }
        s += 1;
    }
    proof {
        if no_cross_conflicts(cv, base) {
            assert(results.deep_view().len() == res0.len() + n * product_counts(rv));
            assert(product_counts(cv) == cv[0].sections.len() * product_counts(cv.drop_first()));
            assert(cv[0].sections.len() == n);
        }
        // Every full extension picks some offered section of the first
        // course, so the loop has recorded all of them.
        assert forall|asg: Seq<SectionView>| #[trigger] is_full_extension(asg, base, cv)
            implies exists|k: int|
            res0.len() <= k < results.deep_view().len() && results.deep_view()[k] == asg by {
            assert(cv[0].sections.contains(asg[base.len() as int + 0]));
            assert(exists|t: int|
                0 <= t < n && asg[base.len() as int] == cv[0].sections[t]);
        }
    }
}

} // verus!
