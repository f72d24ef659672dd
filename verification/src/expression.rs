//! The expression model: the tagged-variant grammar describing a
//! requirement's pass/fail condition, the counters that quantify it, and
//! the qualifications that filter course lists.

use vstd::prelude::*;

use crate::course::dept_set;
use crate::course::CourseV;

verus! {

/// Comparison operator of a counter.
#[derive(Clone, Copy, Debug, PartialEq, Eq, Structural)]
pub enum Operator {
    Eq,
    Gte,
    Lte,
}

/// Shorthand a counter was written with, used when it gives no explicit
/// threshold: every one, at least one, or none of them.
#[derive(Clone, Copy, Debug, PartialEq, Eq, Structural)]
pub enum Shorthand {
    All,
    Any,
    NoneOf,
}

/// A threshold quantifier: an operator together with either an explicit
/// count or a shorthand.
#[derive(Clone, Copy, Debug)]
pub struct ExpressionCounter {
    pub operator: Operator,
    pub was: Option<Shorthand>,
    pub num: Option<u32>,
}

/// The threshold a counter asks for, out of `total` available: the
/// explicit count when one is given, otherwise the shorthand's value, and
/// zero when the counter carries neither.
pub open spec fn counter_target(c: ExpressionCounter, total: int) -> int {
    match c.num {
        Some(n) => n as int,
        None => match c.was {
            Some(Shorthand::All) => total,
            Some(Shorthand::Any) => 1,
            Some(Shorthand::NoneOf) => 0,
            None => 0,
        },
    }
}

/// Whether an achieved `count`, out of `total` available, satisfies the
/// counter's comparison against its threshold.
pub open spec fn counter_accepts(c: ExpressionCounter, count: int, total: int) -> bool {
    match c.operator {
        Operator::Eq => count == counter_target(c, total),
        Operator::Gte => count >= counter_target(c, total),
        Operator::Lte => count <= counter_target(c, total),
    }
}

/// Decides `counter_accepts` for an achieved count out of a total.
pub fn counter_satisfied(c: &ExpressionCounter, count: u128, total: u128) -> (r: bool)
    ensures
        r == counter_accepts(*c, count as int, total as int),
{
    let target: u128 = match c.num {
        Some(n) => n as u128,
        None => match c.was {
            Some(Shorthand::All) => total,
            Some(Shorthand::Any) => 1,
            Some(Shorthand::NoneOf) => 0,
            None => 0,
        },
    };
    match c.operator {
        Operator::Eq => count == target,
        Operator::Gte => count >= target,
        Operator::Lte => count <= target,
    }
}

/// A course-match predicate: which department set and course number to
/// look for, and optionally a level, semester or year to pin down.
#[derive(Clone, Debug)]
pub struct CourseExpression {
    pub department: Vec<String>,
    pub number: i32,
    pub level: Option<i32>,
    pub semester: Option<i32>,
    pub year: Option<i32>,
}

/// Whether the predicate accepts the course: the department sets are equal
/// (as sets of tags), the numbers are equal, and, where the predicate
/// gives a year or a semester, the course carries that value.  The
/// predicate's `level` is carried for reporting but not consulted.
pub open spec fn course_matches(e: CourseExpression, c: CourseV) -> bool {
    &&& dept_set(e.department.deep_view()) == dept_set(c.department)
    &&& e.number as int == c.number
    &&& (e.year matches Some(y) ==> y as int == c.year)
    &&& (e.semester matches Some(s) ==> s as int == c.semester)
}

/// A static value a qualification compares a course field against.
#[derive(Clone, Debug)]
pub enum StaticValue {
    Number(i32),
    Text(String),
    Truth(bool),
}

/// Disjunction of static values: the comparison must hold for at least
/// one of them.
#[derive(Clone, Debug)]
pub struct BooleanOrValue {
    pub values: Vec<StaticValue>,
}

/// Conjunction of static values: the comparison must hold for all of
/// them.
#[derive(Clone, Debug)]
pub struct BooleanAndValue {
    pub values: Vec<StaticValue>,
}

/// Aggregate function of a function-valued qualification.
#[derive(Clone, Copy, Debug, PartialEq, Eq, Structural)]
pub enum FunctionNameEnum {
    Max,
    Min,
}

/// Course field a qualification or aggregate reads.
#[derive(Clone, Copy, Debug, PartialEq, Eq, Structural)]
pub enum FieldNameEnum {
    GeReq,
    Year,
    Department,
    Level,
}

/// A computed aggregate: MIN or MAX of a course field over a course list.
/// The `computed_value` cache is carried for round-tripping but the engine
/// always recomputes the aggregate.
#[derive(Debug)]
pub struct FunctionValue {
    pub name: FunctionNameEnum,
    pub prop: FieldNameEnum,
    pub qualifier: Box<Qualification>,
    pub computed_value: Option<StaticValue>,
}

/// An explicit numeric comparison value.
#[derive(Clone, Copy, Debug)]
pub struct NumericValue {
    pub value: i32,
}

/// An explicit string comparison value.
#[derive(Clone, Debug)]
pub struct StringValue {
    pub value: String,
}

/// The value side of a qualification: a number, a string, a boolean
/// composition of static values, or a computed aggregate.
#[derive(Debug)]
pub enum QualificationValue {
    Number(NumericValue),
    Text(StringValue),
    BooleanOr(BooleanOrValue),
    BooleanAnd(BooleanAndValue),
    Function(FunctionValue),
}

/// Comparison operator of a qualification.
#[derive(Clone, Copy, Debug, PartialEq, Eq, Structural)]
pub enum QualificationOperator {
    Lte,
    Lt,
    Eq,
    Gte,
    Gt,
    Neq,
}

/// Disjunction of qualifications.
#[derive(Debug)]
pub struct OrQualification {
    pub values: Vec<Qualification>,
}

/// Conjunction of qualifications.
#[derive(Debug)]
pub struct AndQualification {
    pub values: Vec<Qualification>,
}

/// A single field predicate: which field, which value, which comparison.
#[derive(Debug)]
pub struct SingleQualification {
    pub key: FieldNameEnum,
    pub value: QualificationValue,
    pub operator: QualificationOperator,
}

/// The recursive boolean closure over single qualifications.
#[derive(Debug)]
pub enum Qualification {
    Single(SingleQualification),
    BooleanOr(OrQualification),
    BooleanAnd(AndQualification),
}

/// Filter that keeps only courses matching one of an explicit list of
/// course predicates.
#[derive(Clone, Debug)]
pub struct FilterOfExpression {
    pub distinct: bool,
    pub of: Vec<CourseExpression>,
}

/// Filter that keeps only courses satisfying a qualification tree.
#[derive(Debug)]
pub struct FilterWhereExpression {
    pub distinct: bool,
    pub qualification: Qualification,
}

/// A pre-evaluation narrowing of the course list visible to a
/// requirement.
#[derive(Debug)]
pub enum FilterExpression {
    Of(FilterOfExpression),
    Where(FilterWhereExpression),
}

/// What a modifier counts: courses, credits, or distinct departments.
#[derive(Clone, Copy, Debug, PartialEq, Eq, Structural)]
pub enum WhatEnum {
    Course,
    Credit,
    Department,
}

/// Modifier counting over courses that satisfy a qualification tree.
#[derive(Debug)]
pub struct Where {
    pub count: ExpressionCounter,
    pub what: WhatEnum,
    pub besides: Option<CourseExpression>,
    pub qualification: Qualification,
}

/// Modifier counting over the whole visible course list.
#[derive(Clone, Debug)]
pub struct Filter {
    pub count: ExpressionCounter,
    pub what: WhatEnum,
    pub besides: Option<CourseExpression>,
}

/// Modifier counting over the visible course list narrowed by a
/// qualification tree.
#[derive(Debug)]
pub struct FilterWhere {
    pub count: ExpressionCounter,
    pub what: WhatEnum,
    pub besides: Option<CourseExpression>,
    pub qualification: Qualification,
}

/// Modifier counting over the courses matched by named child
/// requirements.
#[derive(Clone, Debug)]
pub struct Children {
    pub count: ExpressionCounter,
    pub what: WhatEnum,
    pub besides: Option<CourseExpression>,
    pub children: Vec<ReferenceExpression>,
}

/// Modifier counting over the courses matched by named child
/// requirements, narrowed by a qualification tree.
#[derive(Debug)]
pub struct ChildrenWhere {
    pub count: ExpressionCounter,
    pub what: WhatEnum,
    pub besides: Option<CourseExpression>,
    pub children: Vec<ReferenceExpression>,
    pub qualification: Qualification,
}

/// A counting side-condition: gather a pool of courses, optionally set
/// some aside, optionally narrow by a qualification, then compare the
/// counted measure against the counter.
#[derive(Debug)]
pub enum ModifierExpression {
    Where(Where),
    Filter(Filter),
    FilterWhere(FilterWhere),
    Children(Children),
    ChildrenWhere(ChildrenWhere),
}

/// A named reference to a sibling requirement's already-computed result.
#[derive(Clone, Debug)]
pub struct ReferenceExpression {
    pub requirement: String,
}

/// "N of these sub-expressions must succeed."
#[derive(Debug)]
pub struct OfExpression {
    pub count: ExpressionCounter,
    pub of: Vec<HansonExpression>,
}

/// Disjunction of sub-expressions over the same course list.
#[derive(Debug)]
pub struct BooleanOrExpression {
    pub values: Vec<HansonExpression>,
}

/// Conjunction of sub-expressions over the same course list.
#[derive(Debug)]
pub struct BooleanAndExpression {
    pub values: Vec<HansonExpression>,
}

/// "A single course predicate must match often enough."
#[derive(Clone, Debug)]
pub struct OccurrenceExpression {
    pub course: CourseExpression,
    pub count: ExpressionCounter,
}

/// "Enough courses must satisfy a qualification tree."
#[derive(Debug)]
pub struct WhereExpression {
    pub qualification: Qualification,
    pub count: ExpressionCounter,
    pub distinct: bool,
}

/// The body of a requirement: the boolean/quantified condition evaluated
/// against the student's course list.
#[derive(Debug)]
pub enum HansonExpression {
    Course(CourseExpression),
    Of(OfExpression),
    Reference(ReferenceExpression),
    BooleanOr(BooleanOrExpression),
    BooleanAnd(BooleanAndExpression),
    Modifier(ModifierExpression),
    Occurrence(OccurrenceExpression),
    Where(WhereExpression),
}

} // verus!
