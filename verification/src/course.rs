//! The course model: one record per class a student has taken or is
//! enrolled in, its mathematical value, and the course-matching comparisons
//! used by the evaluation engine.

use vstd::prelude::*;

use crate::expression::course_matches;
use crate::expression::CourseExpression;

verus! {

/// Day of the week on which a catalog course section meets.
#[derive(Clone, Copy, Debug, PartialEq, Eq, Structural)]
pub enum DayOfWeek {
    Mo,
    Tu,
    We,
    Th,
    Fr,
    Sa,
    Su,
}

/// One scheduled meeting time of a catalog course section.
#[derive(Clone, Debug)]
pub struct Offering {
    pub day: DayOfWeek,
    pub start: String,
    pub end: String,
    pub location: Option<String>,
}

/// Registration status of a catalog course section.
#[derive(Clone, Copy, Debug, PartialEq, Eq, Structural)]
pub enum CourseStatus {
    Open,
    Closed,
    Cancelled,
}

/// One course a student has completed or is enrolled in.
///
/// Courses are immutable: each is created once per evaluation run from the
/// student record and never changed.  `credits` counts hundredths of a
/// credit, so a full credit is 100 and three quarters of a credit is 75.
#[derive(Debug)]
pub struct Course {
    pub clbid: String,
    pub credits: u32,
    pub crsid: String,
    pub department: Vec<String>,
    pub groupid: Option<String>,
    pub grouptype: Option<String>,
    pub section: Option<String>,
    pub level: i32,
    pub number: i32,
    pub semester: i32,
    pub year: i32,
}

/// The mathematical value of a `Course`: every field as a sequence,
/// integer or option thereof.  All contracts of the engine speak of
/// courses through this value.
#[verifier::ext_equal]
pub struct CourseV {
    pub clbid: Seq<char>,
    pub credits: int,
    pub crsid: Seq<char>,
    pub department: Seq<Seq<char>>,
    pub groupid: Option<Seq<char>>,
    pub grouptype: Option<Seq<char>>,
    pub section: Option<Seq<char>>,
    pub level: int,
    pub number: int,
    pub semester: int,
    pub year: int,
}

impl View for Course {
    type V = CourseV;

    open spec fn view(&self) -> CourseV {
        CourseV {
            clbid: self.clbid@,
            credits: self.credits as int,
            crsid: self.crsid@,
            department: self.department.deep_view(),
            groupid: self.groupid.deep_view(),
            grouptype: self.grouptype.deep_view(),
            section: self.section.deep_view(),
            level: self.level as int,
            number: self.number as int,
            semester: self.semester as int,
            year: self.year as int,
        }
    }
}

impl DeepView for Course {
    type V = CourseV;

    open spec fn deep_view(&self) -> CourseV {
        self.view()
    }
}

impl Clone for Course {
    /// Cloning a course preserves its mathematical value.
    fn clone(&self) -> (res: Course)
        ensures
            res@ == self@,
    {
        Course {
            clbid: self.clbid.clone(),
            credits: self.credits,
            crsid: self.crsid.clone(),
            department: clone_strings(&self.department),
            groupid: clone_opt_string(&self.groupid),
            grouptype: clone_opt_string(&self.grouptype),
            section: clone_opt_string(&self.section),
            level: self.level,
            number: self.number,
            semester: self.semester,
            year: self.year,
        }
    }
}

/// Clones a list of strings, preserving its deep value.
pub(crate) fn clone_strings(v: &Vec<String>) -> (res: Vec<String>)
    ensures
        res.deep_view() == v.deep_view(),
{
    let mut res: Vec<String> = Vec::new();
    let mut i: usize = 0;
    while i < v.len()
        invariant
            i <= v.len(),
            res@.len() == i,
            forall|j: int| 0 <= j < i ==> res.deep_view()[j] == v.deep_view()[j],
        decreases v.len() - i,
    {
        res.push(v[i].clone());
        i = i + 1;
    }
    assert(res.deep_view() =~= v.deep_view());
    res
}

/// Clones an optional string, preserving its deep value.
fn clone_opt_string(v: &Option<String>) -> (res: Option<String>)
    ensures
        res.deep_view() == v.deep_view(),
{
    match v {
        Some(s) => Some(s.clone()),
        None => None,
    }
}

/// The departments of a course or predicate, read as a set of tags:
/// the order and multiplicity of the listed tags do not matter.
pub open spec fn dept_set(depts: Seq<Seq<char>>) -> Set<Seq<char>> {
    depts.to_set()
}

/// Clones a course list, preserving its mathematical value.
pub fn clone_courses(v: &Vec<Course>) -> (res: Vec<Course>)
    ensures
        res.deep_view() == v.deep_view(),
{
    let mut res: Vec<Course> = Vec::new();
    let mut i: usize = 0;
    while i < v.len()
        invariant
            i <= v.len(),
            res@.len() == i,
            forall|j: int| 0 <= j < i ==> res.deep_view()[j] == v.deep_view()[j],
        decreases v.len() - i,
    {
        res.push(v[i].clone());
        i = i + 1;
    }
    assert(res.deep_view() =~= v.deep_view());
    res
}

/// Whether `needle` occurs in the string list `haystack`.
pub(crate) fn contains_string(haystack: &Vec<String>, needle: &String) -> (r: bool)
    ensures
        r == dept_set(haystack.deep_view()).contains(needle@),
{
    let mut i: usize = 0;
    while i < haystack.len()
        invariant
            i <= haystack.len(),
            forall|j: int| 0 <= j < i ==> haystack.deep_view()[j] != needle@,
        decreases haystack.len() - i,
    {
        if haystack[i] == *needle {
            assert(haystack.deep_view()[i as int] == needle@);
            return true;
        }
        i = i + 1;
    }
    assert(!haystack.deep_view().contains(needle@));
    false
}

/// Department comparison: two department lists name the same thing exactly
/// when they are equal as sets of tags, whatever the order or repetition.
pub fn compare_departments(lhs_depts: &Vec<String>, rhs_depts: &Vec<String>) -> (r: bool)
    ensures
        r == (dept_set(lhs_depts.deep_view()) == dept_set(rhs_depts.deep_view())),
{
    let mut i: usize = 0;
    while i < lhs_depts.len()
        invariant
            i <= lhs_depts.len(),
            forall|j: int| 0 <= j < i ==> dept_set(rhs_depts.deep_view()).contains(
                lhs_depts.deep_view()[j],
            ),
        decreases lhs_depts.len() - i,
    {
        if !contains_string(rhs_depts, &lhs_depts[i]) {
            assert(dept_set(lhs_depts.deep_view()).contains(lhs_depts.deep_view()[i as int]));
            return false;
        }
        i = i + 1;
    }
    let mut k: usize = 0;
    while k < rhs_depts.len()
        invariant
            k <= rhs_depts.len(),
            forall|j: int| 0 <= j < lhs_depts.deep_view().len() ==> dept_set(
                rhs_depts.deep_view(),
            ).contains(lhs_depts.deep_view()[j]),
            forall|j: int| 0 <= j < k ==> dept_set(lhs_depts.deep_view()).contains(
                rhs_depts.deep_view()[j],
            ),
        decreases rhs_depts.len() - k,
    {
        if !contains_string(lhs_depts, &rhs_depts[k]) {
            assert(dept_set(rhs_depts.deep_view()).contains(rhs_depts.deep_view()[k as int]));
            return false;
        }
        k = k + 1;
    }
    proof {
        assert(dept_set(lhs_depts.deep_view()) =~= dept_set(rhs_depts.deep_view()));
    }
    true
}

/// Course-match comparison: decides `course_matches` for a predicate and
/// a course.
pub fn compare_courses(lhs: &CourseExpression, rhs: &Course) -> (r: bool)
    ensures
        r == course_matches(*lhs, rhs@),
{
    if !compare_departments(&lhs.department, &rhs.department) {
        return false;
    }
    if lhs.number != rhs.number {
        return false;
    }
    if let Some(year) = lhs.year {
        if year != rhs.year {
            return false;
        }
    }
    if let Some(semester) = lhs.semester {
        if semester != rhs.semester {
            return false;
        }
    }
    true
}

} // verus!
