//! The qualifier/filter sub-engine: field-level predicates over courses,
//! their boolean composition, counter-based truncation, and the filters
//! that narrow a course list before a requirement is evaluated.

use vstd::prelude::*;

use crate::course::dept_set;
use crate::course::Course;
use crate::course::CourseV;
use crate::expression::course_matches;
use crate::expression::CourseExpression;
use crate::expression::ExpressionCounter;
use crate::expression::FieldNameEnum;
use crate::expression::FilterExpression;
use crate::expression::FunctionNameEnum;
use crate::expression::Operator;
use crate::expression::Qualification;
use crate::expression::QualificationOperator;
use crate::expression::QualificationValue;
use crate::expression::SingleQualification;
use crate::expression::StaticValue;
use crate::order::distinct_of;

verus! {

/// The numeric course field a qualification key reads: the `year` and
/// `level` keys are numeric; the `department` key reads the tag list and
/// the course record carries no ge-req tags, so neither reads a number.
pub open spec fn numeric_field(c: CourseV, key: FieldNameEnum) -> Option<int> {
    match key {
        FieldNameEnum::Year => Some(c.year),
        FieldNameEnum::Level => Some(c.level),
        FieldNameEnum::Department => None,
        FieldNameEnum::GeReq => None,
    }
}

/// Whether `lhs op rhs` holds for integers.
pub open spec fn int_admits(op: QualificationOperator, lhs: int, rhs: int) -> bool {
    match op {
        QualificationOperator::Lte => lhs <= rhs,
        QualificationOperator::Lt => lhs < rhs,
        QualificationOperator::Eq => lhs == rhs,
        QualificationOperator::Gte => lhs >= rhs,
        QualificationOperator::Gt => lhs > rhs,
        QualificationOperator::Neq => lhs != rhs,
    }
}

/// How a course's department tags stand to one tag: equality holds when
/// the tag occurs among them, inequality when it does not; the ordering
/// operators never hold of tags.
pub open spec fn dept_admits(op: QualificationOperator, c: CourseV, tag: Seq<char>) -> bool {
    match op {
        QualificationOperator::Eq => dept_set(c.department).contains(tag),
        QualificationOperator::Neq => !dept_set(c.department).contains(tag),
        _ => false,
    }
}

/// Whether one static value admits the course on the given field:
/// numbers compare against the numeric field, text against the
/// department tags; a bare truth value admits no course.
pub open spec fn static_admits(
    key: FieldNameEnum,
    op: QualificationOperator,
    v: StaticValue,
    c: CourseV,
) -> bool {
    match v {
        StaticValue::Number(n) => numeric_field(c, key) matches Some(x) && int_admits(
            op,
            x,
            n as int,
        ),
        StaticValue::Text(s) => key == FieldNameEnum::Department && dept_admits(op, c, s@),
        StaticValue::Truth(_) => false,
    }
}

/// The numeric field of a course, defaulting to zero where the key is
/// not numeric; only used under keys whose field is numeric.
pub open spec fn field_of(c: CourseV, key: FieldNameEnum) -> int {
    match numeric_field(c, key) {
        Some(x) => x,
        None => 0,
    }
}

/// The least value of a numeric field across a non-empty course list.
pub open spec fn min_field(pool: Seq<CourseV>, key: FieldNameEnum) -> int
    recommends
        pool.len() > 0,
    decreases pool.len(),
{
    if pool.len() <= 1 {
        field_of(pool[0], key)
    } else {
        let rest = min_field(pool.drop_last(), key);
        if field_of(pool.last(), key) < rest {
            field_of(pool.last(), key)
        } else {
            rest
        }
    }
}

/// The greatest value of a numeric field across a non-empty course list.
pub open spec fn max_field(pool: Seq<CourseV>, key: FieldNameEnum) -> int
    recommends
        pool.len() > 0,
    decreases pool.len(),
{
    if pool.len() <= 1 {
        field_of(pool[0], key)
    } else {
        let rest = max_field(pool.drop_last(), key);
        if field_of(pool.last(), key) > rest {
            field_of(pool.last(), key)
        } else {
            rest
        }
    }
}

/// The MIN or MAX aggregate of a course field over a reference list,
/// where one exists: the field must be numeric and the list non-empty.
/// Ties need no breaking: the aggregate of integers is a single value.
pub open spec fn aggregate_of(
    name: FunctionNameEnum,
    key: FieldNameEnum,
    pool: Seq<CourseV>,
) -> Option<int> {
    match key {
        FieldNameEnum::Year | FieldNameEnum::Level => if pool.len() == 0 {
            None
        } else {
            match name {
                FunctionNameEnum::Min => Some(min_field(pool, key)),
                FunctionNameEnum::Max => Some(max_field(pool, key)),
            }
        },
        _ => None,
    }
}

/// Whether a single qualification admits a course; a function-valued
/// qualification first computes its aggregate over `pool`.
pub open spec fn single_admits(q: SingleQualification, c: CourseV, pool: Seq<CourseV>) -> bool {
    match q.value {
        QualificationValue::Number(nv) => numeric_field(c, q.key) matches Some(x) && int_admits(
            q.operator,
            x,
            nv.value as int,
        ),
        QualificationValue::Text(sv) => q.key == FieldNameEnum::Department && dept_admits(
            q.operator,
            c,
            sv.value@,
        ),
        QualificationValue::BooleanOr(ov) => exists|i: int|
            0 <= i < ov.values@.len() && static_admits(
                q.key,
                q.operator,
                #[trigger] ov.values@[i],
                c,
            ),
        QualificationValue::BooleanAnd(av) => forall|i: int|
            0 <= i < av.values@.len() ==> static_admits(
                q.key,
                q.operator,
                #[trigger] av.values@[i],
                c,
            ),
        QualificationValue::Function(fv) => aggregate_of(fv.name, fv.prop, pool) matches Some(a)
            && numeric_field(c, q.key) matches Some(x) && int_admits(q.operator, x, a),
    }
}

/// Counter truncation: a counter with an explicit count and an `=` or
/// `<=` operator keeps only the first that many courses; a `>=` counter,
/// or one without an explicit count, leaves the list unchanged.
pub open spec fn truncate_by(s: Seq<CourseV>, counter: Option<ExpressionCounter>) -> Seq<
    CourseV,
> {
    match counter {
        Some(c) => match c.num {
            Some(n) => match c.operator {
                Operator::Eq | Operator::Lte => if s.len() > n as int {
                    s.take(n as int)
                } else {
                    s
                },
                Operator::Gte => s,
            },
            None => s,
        },
        None => s,
    }
}

/// The reference list an aggregate is computed over: `all_courses` where
/// given, otherwise the list being filtered.
pub open spec fn pool_of(filtered: Seq<CourseV>, all_courses: Option<Seq<CourseV>>) -> Seq<
    CourseV,
> {
    match all_courses {
        Some(p) => p,
        None => filtered,
    }
}

/// The predicate "this single qualification admits the course", with
/// aggregates computed over `pool`.
pub open spec fn admits_fn(clause: SingleQualification, pool: Seq<CourseV>) -> spec_fn(
    CourseV,
) -> bool {
    |c: CourseV| single_admits(clause, c, pool)
}

/// The predicate "this course matches at least one predicate of the
/// list".
pub open spec fn matches_any_fn(of: Seq<CourseExpression>) -> spec_fn(CourseV) -> bool {
    |c: CourseV| exists|i: int| 0 <= i < of.len() && course_matches(#[trigger] of[i], c)
}

/// What filtering by a single qualification returns: the admitted
/// courses in input order, truncated by the counter, then, under the
/// `distinct` policy, sorted and stripped of duplicates.
pub open spec fn qualification_filter(
    filtered: Seq<CourseV>,
    clause: SingleQualification,
    distinct: bool,
    all_courses: Option<Seq<CourseV>>,
    counter: Option<ExpressionCounter>,
) -> Seq<CourseV> {
    let pool = pool_of(filtered, all_courses);
    let kept = filtered.filter(admits_fn(clause, pool));
    let cut = truncate_by(kept, counter);
    if distinct {
        distinct_of(cut)
    } else {
        cut
    }
}

/// What filtering by a qualification tree returns: a single clause
/// filters directly; a conjunction applies each sub-qualifier to the
/// result of the one before; a disjunction applies each sub-qualifier to
/// the original list and concatenates, sorting out duplicates under the
/// `distinct` policy.
pub open spec fn where_filter(
    filtered: Seq<CourseV>,
    clause: Qualification,
    distinct: bool,
    all_courses: Option<Seq<CourseV>>,
    counter: Option<ExpressionCounter>,
) -> Seq<CourseV>
    decreases clause,
{
    match clause {
        Qualification::Single(q) => qualification_filter(
            filtered,
            q,
            distinct,
            all_courses,
            counter,
        ),
        Qualification::BooleanAnd(aq) => {
            let folded = where_filter_fold(filtered, aq.values@, all_courses, counter);
            if distinct {
                distinct_of(folded)
            } else {
                folded
            }
        },
        Qualification::BooleanOr(oq) => {
            let combined = where_filter_concat(filtered, oq.values@, all_courses, counter);
            if distinct {
                distinct_of(combined)
            } else {
                combined
            }
        },
    }
}

/// Sequential intersection: each sub-qualifier filters the result of
/// the one before.  The `distinct` policy belongs to the end of the
/// whole composition, so the steps run without it.
pub open spec fn where_filter_fold(
    filtered: Seq<CourseV>,
    subs: Seq<Qualification>,
    all_courses: Option<Seq<CourseV>>,
    counter: Option<ExpressionCounter>,
) -> Seq<CourseV>
    decreases subs,
{
    if subs.len() == 0 {
        filtered
    } else {
        where_filter_fold(
            where_filter(filtered, subs[0], false, all_courses, counter),
            subs.drop_first(),
            all_courses,
            counter,
        )
    }
}

/// Union: each sub-qualifier filters the original list, and the
/// results are concatenated.  The `distinct` policy belongs to the end
/// of the whole composition, so the steps run without it.
pub open spec fn where_filter_concat(
    filtered: Seq<CourseV>,
    subs: Seq<Qualification>,
    all_courses: Option<Seq<CourseV>>,
    counter: Option<ExpressionCounter>,
) -> Seq<CourseV>
    decreases subs,
{
    if subs.len() == 0 {
        Seq::empty()
    } else {
        where_filter(filtered, subs[0], false, all_courses, counter) + where_filter_concat(
            filtered,
            subs.drop_first(),
            all_courses,
            counter,
        )
    }
}

/// Decides `int_admits`.
fn check_int(op: QualificationOperator, lhs: i32, rhs: i32) -> (r: bool)
    ensures
        r == int_admits(op, lhs as int, rhs as int),
{
    match op {
        QualificationOperator::Lte => lhs <= rhs,
        QualificationOperator::Lt => lhs < rhs,
        QualificationOperator::Eq => lhs == rhs,
        QualificationOperator::Gte => lhs >= rhs,
        QualificationOperator::Gt => lhs > rhs,
        QualificationOperator::Neq => lhs != rhs,
    }
}

/// Decides the numeric comparison of a course field against a value.
fn check_numeric(key: FieldNameEnum, op: QualificationOperator, rhs: i32, c: &Course) -> (r: bool)
    ensures
        r == (numeric_field(c@, key) matches Some(x) && int_admits(op, x, rhs as int)),
{
    match key {
        FieldNameEnum::Year => check_int(op, c.year, rhs),
        FieldNameEnum::Level => check_int(op, c.level, rhs),
        _ => false,
    }
}

/// Decides `dept_admits`.
fn check_dept(op: QualificationOperator, c: &Course, tag: &String) -> (r: bool)
    ensures
        r == dept_admits(op, c@, tag@),
{
    match op {
        QualificationOperator::Eq => crate::course::contains_string(&c.department, tag),
        QualificationOperator::Neq => !crate::course::contains_string(&c.department, tag),
        _ => false,
    }
}

/// Decides `static_admits`.
fn check_static(key: FieldNameEnum, op: QualificationOperator, v: &StaticValue, c: &Course) -> (r:
    bool)
    ensures
        r == static_admits(key, op, *v, c@),
{
    match v {
        StaticValue::Number(n) => check_numeric(key, op, *n, c),
        StaticValue::Text(s) => match key {
            FieldNameEnum::Department => check_dept(op, c, s),
            _ => false,
        },
        StaticValue::Truth(_) => false,
    }
}

/// Reads a numeric course field.
fn get_field(key: FieldNameEnum, c: &Course) -> (r: i32)
    requires
        key == FieldNameEnum::Year || key == FieldNameEnum::Level,
    ensures
        r as int == field_of(c@, key),
{
    match key {
        FieldNameEnum::Year => c.year,
        FieldNameEnum::Level => c.level,
        _ => 0,
    }
}

/// Computes the MIN or MAX aggregate of a course field over a reference
/// list, where one exists.
fn compute_aggregate(name: FunctionNameEnum, key: FieldNameEnum, pool: &Vec<Course>) -> (r: Option<
    i32,
>)
    ensures
        r matches Some(a) ==> aggregate_of(name, key, pool.deep_view()) == Some(a as int),
        r is None ==> aggregate_of(name, key, pool.deep_view()) is None,
{
    match key {
        FieldNameEnum::Year | FieldNameEnum::Level => {},
        _ => {
            return None;
        },
    }
    if pool.len() == 0 {
        return None;
    }
    let ghost dv = pool.deep_view();
    let mut acc: i32 = get_field(key, &pool[0]);
    proof {
        assert(dv.take(1).len() == 1);
        assert(dv.take(1)[0] == dv[0]);
    }
    let mut i: usize = 1;
    while i < pool.len()
        invariant
            1 <= i <= pool.len(),
            dv == pool.deep_view(),
            key == FieldNameEnum::Year || key == FieldNameEnum::Level,
            acc as int == (match name {
                FunctionNameEnum::Min => min_field(dv.take(i as int), key),
                FunctionNameEnum::Max => max_field(dv.take(i as int), key),
            }),
        decreases pool.len() - i,
    {
        let x = get_field(key, &pool[i]);
        match name {
            FunctionNameEnum::Min => if x < acc {
                acc = x;
            },
            FunctionNameEnum::Max => if x > acc {
                acc = x;
            },
        }
        i = i + 1;
        proof {
            let t = dv.take(i as int);
            assert(t.drop_last() =~= dv.take((i - 1) as int));
            assert(t.last() == dv[i - 1]);
        }
    }
    proof {
        assert(dv.take(pool.len() as int) =~= dv);
    }
    Some(acc)
}

/// Decides whether a single qualification admits a course, computing any
/// aggregate over `pool`.
fn check_single(clause: &SingleQualification, c: &Course, pool: &Vec<Course>) -> (r: bool)
    ensures
        r == single_admits(*clause, c@, pool.deep_view()),
{
    match &clause.value {
        QualificationValue::Number(nv) => check_numeric(clause.key, clause.operator, nv.value, c),
        QualificationValue::Text(sv) => match clause.key {
            FieldNameEnum::Department => check_dept(clause.operator, c, &sv.value),
            _ => false,
        },
        QualificationValue::BooleanOr(ov) => {
            let mut i: usize = 0;
            while i < ov.values.len()
                invariant
                    i <= ov.values.len(),
                    clause.value is BooleanOr,
                    clause.value->BooleanOr_0 == *ov,
                    forall|j: int| 0 <= j < i ==> !static_admits(
                        clause.key,
                        clause.operator,
                        #[trigger] ov.values@[j],
                        c@,
                    ),
                decreases ov.values.len() - i,
            {
                if check_static(clause.key, clause.operator, &ov.values[i], c) {
                    proof {
                        let qv = clause.value->BooleanOr_0;
                        assert(qv == *ov);
                        assert(static_admits(clause.key, clause.operator, qv.values@[i as int], c@));
                        assert(exists|j: int|
                            0 <= j < qv.values@.len() && static_admits(
                                clause.key,
                                clause.operator,
                                #[trigger] qv.values@[j],
                                c@,
                            ));
                        assert(single_admits(*clause, c@, pool.deep_view()));
                    }
                    return true;
                }
                i = i + 1;
            }
            false
        },
        QualificationValue::BooleanAnd(av) => {
            let mut i: usize = 0;
            while i < av.values.len()
                invariant
                    i <= av.values.len(),
                    clause.value is BooleanAnd,
                    clause.value->BooleanAnd_0 == *av,
                    forall|j: int| 0 <= j < i ==> static_admits(
                        clause.key,
                        clause.operator,
                        #[trigger] av.values@[j],
                        c@,
                    ),
                decreases av.values.len() - i,
            {
                if !check_static(clause.key, clause.operator, &av.values[i], c) {
                    proof {
                        let qv = clause.value->BooleanAnd_0;
                        assert(qv == *av);
                        assert(!static_admits(clause.key, clause.operator, qv.values@[i as int], c@));
                        assert(!single_admits(*clause, c@, pool.deep_view()));
                    }
                    return false;
                }
                i = i + 1;
            }
            true
        },
        QualificationValue::Function(fv) => match compute_aggregate(fv.name, fv.prop, pool) {
            Some(a) => match clause.key {
                FieldNameEnum::Year => check_int(clause.operator, c.year, a),
                FieldNameEnum::Level => check_int(clause.operator, c.level, a),
                _ => false,
            },
            None => false,
        },
    }
}

/// Retains the courses a single qualification admits, in input order;
/// an `=` or `<=` counter truncates the survivors, and the `distinct`
/// policy sorts them and strips duplicates.
pub fn filter_by_qualification(
    filtered: Vec<Course>,
    clause: &SingleQualification,
    distinct: bool,
    all_courses: Option<&Vec<Course>>,
    counter: Option<ExpressionCounter>,
) -> (r: Vec<Course>)
    ensures
        r.deep_view() == qualification_filter(
            filtered.deep_view(),
            *clause,
            distinct,
            all_courses.deep_view(),
            counter,
        ),
{
    let ghost fv = filtered.deep_view();
    let ghost poolv = pool_of(fv, all_courses.deep_view());
    let pool: &Vec<Course> = match all_courses {
        Some(p) => p,
        None => &filtered,
    };
    assert(pool.deep_view() == poolv);
    let mut kept: Vec<Course> = Vec::new();
    let mut i: usize = 0;
    proof {
        reveal_with_fuel(Seq::filter, 2);
        assert(fv.take(0).filter(admits_fn(*clause, poolv)) =~= Seq::<CourseV>::empty());
    }
    while i < filtered.len()
        invariant
            i <= filtered.len(),
            fv == filtered.deep_view(),
            poolv == pool.deep_view(),
            kept.deep_view() == fv.take(i as int).filter(admits_fn(*clause, poolv)),
        decreases filtered.len() - i,
    {
        let ghost pre = kept.deep_view();
        let admitted = check_single(clause, &filtered[i], pool);
        if admitted {
            kept.push(filtered[i].clone());
        }
        i = i + 1;
        proof {
            reveal_with_fuel(Seq::filter, 2);
            let p = admits_fn(*clause, poolv);
            let t = fv.take(i as int);
            assert(t.len() == i as int);
            assert(t.drop_last() =~= fv.take((i - 1) as int));
            assert(t.drop_last().filter(p) == pre);
            assert(t.last() == fv[i - 1]);
            assert(p(fv[i - 1]) == admitted);
            if admitted {
                assert(t.filter(p) == pre.push(fv[i - 1]));
                assert(kept.deep_view() =~= pre.push(fv[i - 1]));
            } else {
                assert(t.filter(p) == pre);
            }
        }
    }
    proof {
        assert(fv.take(filtered.len() as int) =~= fv);
    }
    let ghost kv = kept.deep_view();
    if let Some(cnt) = counter {
        if let Some(n) = cnt.num {
            match cnt.operator {
                Operator::Eq | Operator::Lte => {
                    kept.truncate(n as usize);
                    proof {
                        assert(kept.deep_view() =~= truncate_by(kv, counter));
                    }
                },
                Operator::Gte => {},
            }
        }
    }
    assert(kept.deep_view() == truncate_by(kv, counter));
    if distinct {
        crate::order::distinct_courses(&kept)
    } else {
        kept
    }
}

/// Retains the courses a qualification tree admits: a single clause
/// filters directly, a conjunction narrows step by step, a disjunction
/// unites the results over the original list.
pub fn filter_by_where_clause(
    filtered: Vec<Course>,
    clause: &Qualification,
    distinct: bool,
    all_courses: Option<&Vec<Course>>,
    counter: Option<ExpressionCounter>,
) -> (r: Vec<Course>)
    ensures
        r.deep_view() == where_filter(
            filtered.deep_view(),
            *clause,
            distinct,
            all_courses.deep_view(),
            counter,
        ),
    decreases *clause,
{
    match clause {
        Qualification::Single(q) => filter_by_qualification(
            filtered,
            q,
            distinct,
            all_courses,
            counter,
        ),
        Qualification::BooleanAnd(aq) => {
            let ghost orig = filtered.deep_view();
            let ghost alls = all_courses.deep_view();
            let mut acc = filtered;
            let mut i: usize = 0;
            proof {
                assert(aq.values@.skip(0) =~= aq.values@);
            }
            while i < aq.values.len()
                invariant
                    i <= aq.values.len(),
                    *clause is BooleanAnd,
                    clause->BooleanAnd_0 == *aq,
                    alls == all_courses.deep_view(),
                    where_filter_fold(orig, aq.values@, alls, counter) == where_filter_fold(
                        acc.deep_view(),
                        aq.values@.skip(i as int),
                        alls,
                        counter,
                    ),
                decreases aq.values.len() - i,
            {
                proof {
                    let qq = *clause;
                    assert(decreases_to!(qq => qq->BooleanAnd_0.values@[i as int]));
                    assert(qq->BooleanAnd_0.values@[i as int] == aq.values@[i as int]);
                }
                acc = filter_by_where_clause(acc, &aq.values[i], false, all_courses, counter);
                i = i + 1;
                proof {
                    let s = aq.values@.skip((i - 1) as int);
                    assert(s[0] == aq.values@[i - 1]);
                    assert(s.drop_first() =~= aq.values@.skip(i as int));
                }
            }
            proof {
                assert(aq.values@.skip(aq.values@.len() as int) =~= Seq::<Qualification>::empty());
            }
            if distinct {
                crate::order::distinct_courses(&acc)
            } else {
                acc
            }
        },
        Qualification::BooleanOr(oq) => {
            let ghost fv = filtered.deep_view();
            let ghost alls = all_courses.deep_view();
            let mut out: Vec<Course> = Vec::new();
            let mut i: usize = 0;
            proof {
                assert(oq.values@.skip(0) =~= oq.values@);
                assert(out.deep_view() =~= Seq::<CourseV>::empty());
                assert(Seq::<CourseV>::empty() + where_filter_concat(
                    fv,
                    oq.values@,
                    alls,
                    counter,
                ) =~= where_filter_concat(fv, oq.values@, alls, counter));
            }
            while i < oq.values.len()
                invariant
                    i <= oq.values.len(),
                    *clause is BooleanOr,
                    clause->BooleanOr_0 == *oq,
                    fv == filtered.deep_view(),
                    alls == all_courses.deep_view(),
                    out.deep_view() + where_filter_concat(
                        fv,
                        oq.values@.skip(i as int),
                        alls,
                        counter,
                    ) == where_filter_concat(fv, oq.values@, alls, counter),
                decreases oq.values.len() - i,
            {
                let ghost pre = out.deep_view();
                let copy = crate::course::clone_courses(&filtered);
                proof {
                    let qq = *clause;
                    assert(decreases_to!(qq => qq->BooleanOr_0.values@[i as int]));
                    assert(qq->BooleanOr_0.values@[i as int] == oq.values@[i as int]);
                }
                let mut sub = filter_by_where_clause(
                    copy,
                    &oq.values[i],
                    false,
                    all_courses,
                    counter,
                );
                let ghost subv = sub.deep_view();
                out.append(&mut sub);
                i = i + 1;
                proof {
                    let s = oq.values@.skip((i - 1) as int);
                    assert(s[0] == oq.values@[i - 1]);
                    assert(s.drop_first() =~= oq.values@.skip(i as int));
                    assert(out.deep_view() =~= pre + subv);
                    assert((pre + subv) + where_filter_concat(
                        fv,
                        oq.values@.skip(i as int),
                        alls,
                        counter,
                    ) =~= pre + (subv + where_filter_concat(
                        fv,
                        oq.values@.skip(i as int),
                        alls,
                        counter,
                    )));
                }
            }
            proof {
                assert(oq.values@.skip(oq.values@.len() as int) =~= Seq::<Qualification>::empty());
                assert(out.deep_view() + Seq::<CourseV>::empty() =~= out.deep_view());
            }
            if distinct {
                crate::order::distinct_courses(&out)
            } else {
                out
            }
        },
    }
}

/// Whether a course matches at least one predicate of an explicit list.
fn matches_any(of: &Vec<CourseExpression>, c: &Course) -> (r: bool)
    ensures
        r == exists|i: int| 0 <= i < of@.len() && course_matches(#[trigger] of@[i], c@),
{
    let mut i: usize = 0;
    while i < of.len()
        invariant
            i <= of.len(),
            forall|j: int| 0 <= j < i ==> !course_matches(#[trigger] of@[j], c@),
        decreases of.len() - i,
    {
        if crate::course::compare_courses(&of[i], c) {
            return true;
        }
        i = i + 1;
    }
    false
}

/// What applying a requirement's filter returns: an `Of` filter keeps
/// the courses matching at least one of its predicates; a `Where` filter
/// delegates to the qualifier sub-engine with no reference list and no
/// counter.
pub open spec fn filter_apply(f: FilterExpression, courses: Seq<CourseV>) -> Seq<CourseV> {
    match f {
        FilterExpression::Of(e) => courses.filter(matches_any_fn(e.of@)),
        FilterExpression::Where(e) => where_filter(
            courses,
            e.qualification,
            e.distinct,
            None,
            None,
        ),
    }
}

/// Applies a requirement's filter to the course list visible to it.
pub fn apply_filter(filter: &FilterExpression, courses: Vec<Course>) -> (r: Vec<Course>)
    ensures
        r.deep_view() == filter_apply(*filter, courses.deep_view()),
{
    match filter {
        FilterExpression::Of(expr) => {
            let ghost dv = courses.deep_view();
            let ghost p = matches_any_fn(expr.of@);
            let mut kept: Vec<Course> = Vec::new();
            let mut i: usize = 0;
            proof {
                reveal_with_fuel(Seq::filter, 2);
                assert(dv.take(0).filter(p) =~= Seq::<CourseV>::empty());
            }
            while i < courses.len()
                invariant
                    i <= courses.len(),
                    dv == courses.deep_view(),
                    p == matches_any_fn(expr.of@),
                    kept.deep_view() == dv.take(i as int).filter(p),
                decreases courses.len() - i,
            {
                let ghost pre = kept.deep_view();
                let hit = matches_any(&expr.of, &courses[i]);
                if hit {
                    kept.push(courses[i].clone());
                }
                i = i + 1;
                proof {
                    reveal_with_fuel(Seq::filter, 2);
                    let t = dv.take(i as int);
                    assert(t.len() == i as int);
                    assert(t.drop_last() =~= dv.take((i - 1) as int));
                    assert(t.last() == dv[i - 1]);
                    assert(p(dv[i - 1]) == hit);
                    if hit {
                        assert(kept.deep_view() =~= pre.push(dv[i - 1]));
                    }
                }
            }
            proof {
                assert(dv.take(courses.len() as int) =~= dv);
            }
            kept
        },
        FilterExpression::Where(expr) => filter_by_where_clause(
            courses,
            &expr.qualification,
            expr.distinct,
            None,
            None,
        ),
    }
}

proof fn lemma_truncate_subset(s: Seq<CourseV>, counter: Option<ExpressionCounter>, x: CourseV)
    requires
        truncate_by(s, counter).contains(x),
    ensures
        s.contains(x),
{
    let t = truncate_by(s, counter);
    let k = choose|k: int| 0 <= k < t.len() && t[k] == x;
    assert(s[k] == x);
}

proof fn lemma_qualification_filter_subset(
    filtered: Seq<CourseV>,
    clause: SingleQualification,
    distinct: bool,
    all_courses: Option<Seq<CourseV>>,
    counter: Option<ExpressionCounter>,
    x: CourseV,
)
    requires
        qualification_filter(filtered, clause, distinct, all_courses, counter).contains(x),
    ensures
        filtered.contains(x),
{
    let pool = pool_of(filtered, all_courses);
    let kept = filtered.filter(admits_fn(clause, pool));
    let cut = truncate_by(kept, counter);
    if distinct {
        crate::order::lemma_distinct_dedup(cut);
        assert(cut.contains(x));
    }
    lemma_truncate_subset(kept, counter, x);
    filtered.lemma_filter_contains_rev(admits_fn(clause, pool), x);
}

proof fn lemma_where_filter_subset(
    filtered: Seq<CourseV>,
    clause: Qualification,
    distinct: bool,
    all_courses: Option<Seq<CourseV>>,
    counter: Option<ExpressionCounter>,
    x: CourseV,
)
    requires
        where_filter(filtered, clause, distinct, all_courses, counter).contains(x),
    ensures
        filtered.contains(x),
    decreases clause,
{
    match clause {
        Qualification::Single(q) => {
            lemma_qualification_filter_subset(filtered, q, distinct, all_courses, counter, x);
        },
        Qualification::BooleanAnd(aq) => {
            let folded = where_filter_fold(filtered, aq.values@, all_courses, counter);
            if distinct {
                crate::order::lemma_distinct_dedup(folded);
                assert(folded.contains(x));
            }
            lemma_where_filter_fold_subset(filtered, aq.values@, all_courses, counter, x);
        },
        Qualification::BooleanOr(oq) => {
            let combined = where_filter_concat(filtered, oq.values@, all_courses, counter);
            if distinct {
                crate::order::lemma_distinct_dedup(combined);
                assert(combined.contains(x));
            }
            lemma_where_filter_concat_subset(filtered, oq.values@, all_courses, counter, x);
        },
    }
}

proof fn lemma_where_filter_fold_subset(
    filtered: Seq<CourseV>,
    subs: Seq<Qualification>,
    all_courses: Option<Seq<CourseV>>,
    counter: Option<ExpressionCounter>,
    x: CourseV,
)
    requires
        where_filter_fold(filtered, subs, all_courses, counter).contains(x),
    ensures
        filtered.contains(x),
    decreases subs,
{
    if subs.len() > 0 {
        let mid = where_filter(filtered, subs[0], false, all_courses, counter);
        lemma_where_filter_fold_subset(mid, subs.drop_first(), all_courses, counter, x);
        lemma_where_filter_subset(filtered, subs[0], false, all_courses, counter, x);
    }
}

proof fn lemma_where_filter_concat_subset(
    filtered: Seq<CourseV>,
    subs: Seq<Qualification>,
    all_courses: Option<Seq<CourseV>>,
    counter: Option<ExpressionCounter>,
    x: CourseV,
)
    requires
        where_filter_concat(filtered, subs, all_courses, counter).contains(x),
    ensures
        filtered.contains(x),
    decreases subs,
{
    if subs.len() > 0 {
        let head = where_filter(filtered, subs[0], false, all_courses, counter);
        let tail = where_filter_concat(filtered, subs.drop_first(), all_courses, counter);
        let k = choose|k: int| 0 <= k < (head + tail).len() && (head + tail)[k] == x;
        if k < head.len() {
            assert(head.contains(x));
            lemma_where_filter_subset(filtered, subs[0], false, all_courses, counter, x);
        } else {
            assert(tail[k - head.len()] == x);
            assert(tail.contains(x));
            lemma_where_filter_concat_subset(filtered, subs.drop_first(), all_courses, counter, x);
        }
    }
}

/// Distinct dedup: a `distinct` run of the qualifier sub-engine returns
/// exactly the distinct policy applied to the non-distinct run.  Its
/// result therefore has no two equal courses, and every course in it
/// occurs in the non-distinct result.
pub proof fn lemma_where_filter_distinct(
    filtered: Seq<CourseV>,
    clause: Qualification,
    all_courses: Option<Seq<CourseV>>,
    counter: Option<ExpressionCounter>,
)
    ensures
        where_filter(filtered, clause, true, all_courses, counter) == distinct_of(
            where_filter(filtered, clause, false, all_courses, counter),
        ),
        where_filter(filtered, clause, true, all_courses, counter).no_duplicates(),
        forall|x: CourseV|
            #[trigger] where_filter(filtered, clause, true, all_courses, counter).contains(x)
                ==> where_filter(filtered, clause, false, all_courses, counter).contains(x),
{
    let nd = where_filter(filtered, clause, false, all_courses, counter);
    crate::order::lemma_distinct_dedup(nd);
}

/// Filter monotonicity: applying a requirement's filter never returns a
/// course that was not present in its input.
pub proof fn lemma_apply_filter_monotonic(f: FilterExpression, courses: Seq<CourseV>, x: CourseV)
    requires
        filter_apply(f, courses).contains(x),
    ensures
        courses.contains(x),
{
    match f {
        FilterExpression::Of(e) => {
            courses.lemma_filter_contains_rev(matches_any_fn(e.of@), x);
        },
        FilterExpression::Where(e) => {
            lemma_where_filter_subset(courses, e.qualification, e.distinct, None, None, x);
        },
    }
}

} // verus!
