//! The section/course model: sections group time blocks, courses group
//! sections, and two sections conflict when any of their blocks intersect.
use vstd::prelude::*;
use crate::interval::TimeDuration;

verus! {

/// One offered section of a course: identifying labels, its credit hours,
/// and the weekly time blocks it meets at.
#[derive(Clone, Debug)]
pub struct Section {
    pub name: String,
    pub dept: String,
    pub course_num: u32,
    pub section_num: u8,
    pub credits: u8,
    pub times: Vec<TimeDuration>,
}

/// The mathematical value of a `Section`: the same fields with strings and
/// vectors replaced by sequences.
#[verifier::ext_equal]
pub ghost struct SectionView {
    pub name: Seq<char>,
    pub dept: Seq<char>,
    pub course_num: u32,
    pub section_num: u8,
    pub credits: u8,
    pub times: Seq<TimeDuration>,
}

impl View for Section {
    type V = SectionView;

    open spec fn view(&self) -> SectionView {
        SectionView {
            name: self.name@,
            dept: self.dept@,
            course_num: self.course_num,
            section_num: self.section_num,
            credits: self.credits,
            times: self.times@,
        }
    }
}

impl DeepView for Section {
    type V = SectionView;

    open spec fn deep_view(&self) -> SectionView {
        self.view()
    }
}

/// One required course: its labels and the sections on offer for it.
#[derive(Clone, Debug)]
pub struct Course {
    pub name: String,
    pub department: String,
    pub sections: Vec<Section>,
}

/// The mathematical value of a `Course`.
#[verifier::ext_equal]
pub ghost struct CourseView {
    pub name: Seq<char>,
    pub department: Seq<char>,
    pub sections: Seq<SectionView>,
}

impl View for Course {
    type V = CourseView;

    open spec fn view(&self) -> CourseView {
        CourseView {
            name: self.name@,
            department: self.department@,
            sections: self.sections.deep_view(),
        }
    }
}

impl DeepView for Course {
    type V = CourseView;

    open spec fn deep_view(&self) -> CourseView {
        self.view()
    }
}

impl SectionView {
    /// A section admitted into search has at least one well-formed time
    /// block, and its own same-day blocks are strictly separated (no
    /// overlapping or touching blocks within one section).
    pub open spec fn wf(self) -> bool {
        &&& self.times.len() > 0
        &&& forall|i: int| 0 <= i < self.times.len() ==> (#[trigger] self.times[i]).wf()
        &&& forall|i: int, j: int|
            0 <= i < self.times.len() && 0 <= j < self.times.len() && i != j
                && (#[trigger] self.times[i]).day == (#[trigger] self.times[j]).day
                ==> self.times[i].spec_minute_end() < self.times[j].spec_minute_begin()
                    || self.times[j].spec_minute_end() < self.times[i].spec_minute_begin()
    }

    /// Two sections conflict when any time block of one intersects any time
    /// block of the other.
    pub open spec fn spec_conflicts(self, other: SectionView) -> bool {
        exists|i: int, j: int|
            0 <= i < self.times.len() && 0 <= j < other.times.len()
                && (#[trigger] self.times[i]).spec_intersects(#[trigger] other.times[j])
    }
}

/// Section conflict is symmetric, because block intersection is.
pub proof fn lemma_conflicts_symmetric(a: SectionView, b: SectionView)
    ensures
        a.spec_conflicts(b) == b.spec_conflicts(a),
{
    if a.spec_conflicts(b) {
        let (i, j) = choose|i: int, j: int|
            0 <= i < a.times.len() && 0 <= j < b.times.len() && (#[trigger] a.times[i])
                .spec_intersects(#[trigger] b.times[j]);
        assert(b.times[j].spec_intersects(a.times[i]));
    }
    if b.spec_conflicts(a) {
        let (i, j) = choose|i: int, j: int|
            0 <= i < b.times.len() && 0 <= j < a.times.len() && (#[trigger] b.times[i])
                .spec_intersects(#[trigger] a.times[j]);
        assert(a.times[j].spec_intersects(b.times[i]));
    }
}

impl Section {
    pub fn intersects_with(&self, other: &Self) -> (r: bool)
        requires
            forall|i: int| 0 <= i < self@.times.len() ==> (#[trigger] self@.times[i]).wf(),
            forall|i: int| 0 <= i < other@.times.len() ==> (#[trigger] other@.times[i]).wf(),
        ensures
            r == self@.spec_conflicts(other@),
    {
        let mut t1: usize = 0;
        while t1 < self.times.len()
            invariant
                t1 <= self@.times.len(),
                forall|i: int| 0 <= i < self@.times.len() ==> (#[trigger] self@.times[i]).wf(),
                forall|i: int| 0 <= i < other@.times.len() ==> (#[trigger] other@.times[i]).wf(),
                forall|i: int, j: int|
                    0 <= i < t1 && 0 <= j < other@.times.len()
                        ==> !(#[trigger] self@.times[i]).spec_intersects(
                        #[trigger] other@.times[j]),
            decreases self@.times.len() - t1,
        {
            let mut t2: usize = 0;
            while t2 < other.times.len()
                invariant
                    t1 < self@.times.len(),
                    t2 <= other@.times.len(),
                    forall|i: int| 0 <= i < self@.times.len() ==> (#[trigger] self@.times[i]).wf(),
                    forall|i: int|
                        0 <= i < other@.times.len() ==> (#[trigger] other@.times[i]).wf(),
                    forall|j: int|
                        0 <= j < t2 ==> !self@.times[t1 as int].spec_intersects(
                            #[trigger] other@.times[j]),
                decreases other@.times.len() - t2,
            {
                if self.times[t1].intersects_with(&other.times[t2]) {
                    assert(self@.spec_conflicts(other@));
                    return true;
                }
                t2 += 1;
            }
            t1 += 1;
        }
        false
    }
}

/// A conflict-free stack of chosen sections: no two entries conflict.
pub open spec fn stack_ok(stack: Seq<SectionView>) -> bool {
    forall|p: int, q: int|
        0 <= p < stack.len() && 0 <= q < stack.len() && p != q
            ==> !(#[trigger] stack[p]).spec_conflicts(#[trigger] stack[q])
}

/// Every section in the stack is well formed.
pub open spec fn all_sections_wf(stack: Seq<SectionView>) -> bool {
    forall|p: int| 0 <= p < stack.len() ==> (#[trigger] stack[p]).wf()
}

/// Every section of every listed course is well formed.
pub open spec fn sections_wf(courses: Seq<CourseView>) -> bool {
    forall|c: int, s: int|
        0 <= c < courses.len() && 0 <= s < (#[trigger] courses[c]).sections.len()
            ==> (#[trigger] courses[c].sections[s]).wf()
}

/// Does the candidate section conflict with any section already chosen?
pub fn intersects_any_in_stack(sec_to_check: &Section, stack: &Vec<Section>) -> (r: bool)
    requires
        forall|i: int|
            0 <= i < sec_to_check@.times.len() ==> (#[trigger] sec_to_check@.times[i]).wf(),
        forall|p: int, i: int|
            0 <= p < stack.deep_view().len() && 0 <= i < (#[trigger] stack.deep_view()[p]).times.len()
                ==> (#[trigger] stack.deep_view()[p].times[i]).wf(),
    ensures
        r == exists|p: int|
            0 <= p < stack.deep_view().len() && sec_to_check@.spec_conflicts(
                #[trigger] stack.deep_view()[p]),
{
    let ghost sv = stack.deep_view();
    let mut p: usize = 0;
    while p < stack.len()
        invariant
            p <= sv.len(),
            sv == stack.deep_view(),
            sv.len() == stack@.len(),
            forall|i: int|
                0 <= i < sec_to_check@.times.len() ==> (#[trigger] sec_to_check@.times[i]).wf(),
            forall|q: int, i: int|
                0 <= q < sv.len() && 0 <= i < (#[trigger] sv[q]).times.len()
                    ==> (#[trigger] sv[q].times[i]).wf(),
            forall|q: int| 0 <= q < p ==> !sec_to_check@.spec_conflicts(#[trigger] sv[q]),
        decreases sv.len() - p,
    {
        assert(sv[p as int] == stack@[p as int]@);
        if sec_to_check.intersects_with(&stack[p]) {
            return true;
        }
        p += 1;
    }
    false
}

/// Duplicate a section; the copy has the same mathematical value.
pub fn clone_section(s: &Section) -> (r: Section)
    ensures
        r@ == s@,
{
    let r = Section {
        name: s.name.clone(),
        dept: s.dept.clone(),
        course_num: s.course_num,
        section_num: s.section_num,
        credits: s.credits,
        times: s.times.clone(),
    };
    assert(r@ =~= s@);
    r
}

/// Duplicate a stack of sections; the copy has the same mathematical value.
pub fn clone_stack(stack: &Vec<Section>) -> (r: Vec<Section>)
    ensures
        r.deep_view() == stack.deep_view(),
{
    let mut r: Vec<Section> = Vec::new();
    let mut i: usize = 0;
    while i < stack.len()
        invariant
            i <= stack@.len(),
            r@.len() == i,
            forall|k: int| 0 <= k < i ==> (#[trigger] r@[k])@ == stack@[k]@,
        decreases stack@.len() - i,
    {
        r.push(clone_section(&stack[i]));
        i += 1;
    }
    assert(r.deep_view() =~= stack.deep_view());
    r
}

} // verus!
