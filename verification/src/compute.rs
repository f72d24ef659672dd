//! The expression evaluator: a pure recursive dispatch over the
//! expression grammar, turning an expression, the already-evaluated
//! sibling requirements, and the visible course list into the matched
//! courses and a success flag.

use vstd::prelude::*;

use crate::course::clone_courses;
use crate::course::compare_courses;
use crate::course::Course;
use crate::course::CourseV;
use crate::expression::counter_accepts;
use crate::expression::course_matches;
use crate::expression::BooleanAndExpression;
use crate::expression::BooleanOrExpression;
use crate::expression::CourseExpression;
use crate::expression::HansonExpression;
use crate::expression::ModifierExpression;
use crate::expression::OccurrenceExpression;
use crate::expression::OfExpression;
use crate::expression::ReferenceExpression;
use crate::expression::WhatEnum;
use crate::expression::WhereExpression;
use crate::filter::where_filter;
use crate::evaluate::Requirement;
use crate::evaluate::RequirementV;

verus! {

/// The result of evaluating one expression.
#[derive(Debug)]
pub struct ExpressionResult {
    pub matched_courses: Vec<Course>,
    pub success: bool,
}

/// The mathematical value of an expression evaluation outcome.
#[verifier::ext_equal]
pub struct OutcomeV {
    pub matched: Seq<CourseV>,
    pub success: bool,
}

/// The predicate "this course-match predicate accepts the course".
pub open spec fn course_match_fn(e: CourseExpression) -> spec_fn(CourseV) -> bool {
    |c: CourseV| course_matches(e, c)
}

/// The first sibling requirement with the given name, if any; names are
/// unique among siblings, so at most one can bear it.
pub open spec fn find_requirement(children: Seq<RequirementV>, name: Seq<char>) -> Option<
    RequirementV,
>
    decreases children.len(),
{
    if children.len() == 0 {
        None
    } else if children[0].name == name {
        Some(children[0])
    } else {
        find_requirement(children.drop_first(), name)
    }
}

/// What a reference to a sibling requirement evaluates to: the sibling's
/// attached result, copied verbatim; a missing or unevaluated sibling is
/// a recoverable failure with no matches.
pub open spec fn reference_eval(r: ReferenceExpression, children: Seq<RequirementV>) -> OutcomeV {
    match find_requirement(children, r.requirement@) {
        Some(child) => match child.evaluated {
            Some(detail) => OutcomeV { matched: detail.matched_courses, success: detail.success },
            None => OutcomeV { matched: Seq::empty(), success: false },
        },
        None => OutcomeV { matched: Seq::empty(), success: false },
    }
}

/// What one expression evaluates to.
pub open spec fn expr_eval(
    e: HansonExpression,
    children: Seq<RequirementV>,
    courses: Seq<CourseV>,
) -> OutcomeV
    decreases e,
{
    match e {
        HansonExpression::Course(ce) => {
            let matched = courses.filter(course_match_fn(ce));
            OutcomeV { matched, success: matched.len() > 0 }
        },
        HansonExpression::Of(of) => OutcomeV {
            matched: matched_concat(of.of@, children, courses),
            success: counter_accepts(
                of.count,
                success_count(of.of@, children, courses),
                of.of@.len() as int,
            ),
        },
        HansonExpression::Reference(r) => reference_eval(r, children),
        HansonExpression::BooleanOr(or_expr) => OutcomeV {
            matched: matched_concat(or_expr.values@, children, courses),
            success: any_succeeds(or_expr.values@, children, courses),
        },
        HansonExpression::BooleanAnd(and_expr) => OutcomeV {
            matched: matched_concat(and_expr.values@, children, courses),
            success: all_succeed(and_expr.values@, children, courses),
        },
        HansonExpression::Modifier(m) => modifier_eval(m, children, courses),
        HansonExpression::Occurrence(o) => {
            let matched = courses.filter(course_match_fn(o.course));
            OutcomeV {
                matched,
                success: counter_accepts(o.count, matched.len() as int, courses.len() as int),
            }
        },
        HansonExpression::Where(w) => {
            let filtered = where_filter(courses, w.qualification, w.distinct, None, Some(w.count));
            OutcomeV {
                matched: filtered,
                success: counter_accepts(w.count, filtered.len() as int, courses.len() as int),
            }
        },
    }
}

/// The concatenation of the courses matched by each sub-expression, in
/// order; duplicates are kept.
pub open spec fn matched_concat(
    es: Seq<HansonExpression>,
    children: Seq<RequirementV>,
    courses: Seq<CourseV>,
) -> Seq<CourseV>
    decreases es,
{
    if es.len() == 0 {
        Seq::empty()
    } else {
        matched_concat(es.drop_last(), children, courses) + expr_eval(
            es.last(),
            children,
            courses,
        ).matched
    }
}

/// How many of the sub-expressions succeed.
pub open spec fn success_count(
    es: Seq<HansonExpression>,
    children: Seq<RequirementV>,
    courses: Seq<CourseV>,
) -> int
    decreases es,
{
    if es.len() == 0 {
        0
    } else {
        success_count(es.drop_last(), children, courses) + (if expr_eval(
            es.last(),
            children,
            courses,
        ).success {
            1int
        } else {
            0int
        })
    }
}

/// Whether every sub-expression succeeds; vacuously true of none, the
/// standard boolean-algebra identity for an empty conjunction.
pub open spec fn all_succeed(
    es: Seq<HansonExpression>,
    children: Seq<RequirementV>,
    courses: Seq<CourseV>,
) -> bool
    decreases es,
{
    forall|i: int| 0 <= i < es.len() ==> expr_eval(#[trigger] es[i], children, courses).success
}

/// Whether at least one sub-expression succeeds; false of none, the
/// standard boolean-algebra identity for an empty disjunction.
pub open spec fn any_succeeds(
    es: Seq<HansonExpression>,
    children: Seq<RequirementV>,
    courses: Seq<CourseV>,
) -> bool
    decreases es,
{
    exists|i: int| 0 <= i < es.len() && expr_eval(#[trigger] es[i], children, courses).success
}

/// The predicate "this course is not set aside": a course matching the
/// `besides` predicate is excluded from a modifier's pool.
pub open spec fn besides_fn(besides: Option<CourseExpression>) -> spec_fn(CourseV) -> bool {
    |c: CourseV|
        match besides {
            Some(e) => !course_matches(e, c),
            None => true,
        }
}

/// The courses matched by the named child requirements, concatenated in
/// order.
pub open spec fn children_matched(
    refs: Seq<ReferenceExpression>,
    children: Seq<RequirementV>,
) -> Seq<CourseV>
    decreases refs,
{
    if refs.len() == 0 {
        Seq::empty()
    } else {
        children_matched(refs.drop_last(), children) + reference_eval(refs.last(), children).matched
    }
}

/// The credits of a course list, summed in hundredths of a credit.
pub open spec fn credit_sum(s: Seq<CourseV>) -> int
    decreases s,
{
    if s.len() == 0 {
        0
    } else {
        credit_sum(s.drop_last()) + s.last().credits
    }
}

/// All department tags of a course list, concatenated in order.
pub open spec fn tags_concat(s: Seq<CourseV>) -> Seq<Seq<char>>
    decreases s,
{
    if s.len() == 0 {
        Seq::empty()
    } else {
        tags_concat(s.drop_last()) + s.last().department
    }
}

/// The first occurrence of each distinct element, in order.
pub open spec fn uniq(s: Seq<Seq<char>>) -> Seq<Seq<char>>
    decreases s,
{
    if s.len() == 0 {
        Seq::empty()
    } else if s.drop_last().contains(s.last()) {
        uniq(s.drop_last())
    } else {
        uniq(s.drop_last()).push(s.last())
    }
}

/// What a modifier counts over a course pool: its courses, their
/// credits, or their distinct department tags.
pub open spec fn measure_of(what: WhatEnum, pool: Seq<CourseV>) -> int {
    match what {
        WhatEnum::Course => pool.len() as int,
        WhatEnum::Credit => credit_sum(pool),
        WhatEnum::Department => uniq(tags_concat(pool)).len() as int,
    }
}

/// What a modifier evaluates to.  The pool is the visible course list,
/// or, for the children forms, the courses matched by the named child
/// requirements; courses matching `besides` are set aside; a
/// qualification, where the modifier carries one, narrows the pool
/// further.  The measure of the narrowed pool is held against the
/// counter, whose shorthand thresholds read the measure of the whole
/// pool; the narrowed pool is reported as the matched courses.
pub open spec fn modifier_eval(
    m: ModifierExpression,
    children: Seq<RequirementV>,
    courses: Seq<CourseV>,
) -> OutcomeV {
    let pool = match m {
        ModifierExpression::Where(_) | ModifierExpression::Filter(_)
            | ModifierExpression::FilterWhere(_) => courses,
        ModifierExpression::Children(c) => children_matched(c.children@, children),
        ModifierExpression::ChildrenWhere(cw) => children_matched(cw.children@, children),
    };
    let counter = match m {
        ModifierExpression::Where(w) => w.count,
        ModifierExpression::Filter(f) => f.count,
        ModifierExpression::FilterWhere(fw) => fw.count,
        ModifierExpression::Children(c) => c.count,
        ModifierExpression::ChildrenWhere(cw) => cw.count,
    };
    let what = match m {
        ModifierExpression::Where(w) => w.what,
        ModifierExpression::Filter(f) => f.what,
        ModifierExpression::FilterWhere(fw) => fw.what,
        ModifierExpression::Children(c) => c.what,
        ModifierExpression::ChildrenWhere(cw) => cw.what,
    };
    let besides = match m {
        ModifierExpression::Where(w) => w.besides,
        ModifierExpression::Filter(f) => f.besides,
        ModifierExpression::FilterWhere(fw) => fw.besides,
        ModifierExpression::Children(c) => c.besides,
        ModifierExpression::ChildrenWhere(cw) => cw.besides,
    };
    let kept = pool.filter(besides_fn(besides));
    let narrowed = match m {
        ModifierExpression::Where(w) => where_filter(kept, w.qualification, false, None, None),
        ModifierExpression::Filter(_) => kept,
        ModifierExpression::FilterWhere(fw) => where_filter(
            kept,
            fw.qualification,
            false,
            None,
            None,
        ),
        ModifierExpression::Children(_) => kept,
        ModifierExpression::ChildrenWhere(cw) => where_filter(
            kept,
            cw.qualification,
            false,
            None,
            None,
        ),
    };
    OutcomeV {
        matched: narrowed,
        success: counter_accepts(counter, measure_of(what, narrowed), measure_of(what, kept)),
    }
}

/// Retains the courses a course-match predicate accepts, in input order.
fn filter_matching(courses: &Vec<Course>, e: &CourseExpression) -> (r: Vec<Course>)
    ensures
        r.deep_view() == courses.deep_view().filter(course_match_fn(*e)),
{
    let ghost dv = courses.deep_view();
    let ghost p = course_match_fn(*e);
    let mut kept: Vec<Course> = Vec::new();
    let mut i: usize = 0;
    proof {
        reveal_with_fuel(Seq::filter, 2);
        assert(dv.take(0).filter(p) =~= Seq::<CourseV>::empty());
    }
    while i < courses.len()
        invariant
            i <= courses.len(),
            dv == courses.deep_view(),
            p == course_match_fn(*e),
            kept.deep_view() == dv.take(i as int).filter(p),
        decreases courses.len() - i,
    {
        let ghost pre = kept.deep_view();
        let hit = compare_courses(e, &courses[i]);
        if hit {
            kept.push(courses[i].clone());
        }
        i = i + 1;
        proof {
            reveal_with_fuel(Seq::filter, 2);
            let t = dv.take(i as int);
            assert(t.len() == i as int);
            assert(t.drop_last() =~= dv.take((i - 1) as int));
            assert(t.last() == dv[i - 1]);
            assert(p(dv[i - 1]) == hit);
            if hit {
                assert(kept.deep_view() =~= pre.push(dv[i - 1]));
            }
        }
    }
    proof {
        assert(dv.take(courses.len() as int) =~= dv);
    }
    kept
}

/// Evaluates a course-match expression: the matching courses, success
/// exactly when there is at least one.
fn expr_course(expression: &CourseExpression, courses: &Vec<Course>) -> (r: ExpressionResult)
    ensures
        r.matched_courses.deep_view() == courses.deep_view().filter(course_match_fn(*expression)),
        r.success == (courses.deep_view().filter(course_match_fn(*expression)).len() > 0),
{
    let matched_courses = filter_matching(courses, expression);
    let success = matched_courses.len() > 0;
    proof {
        assert(matched_courses.deep_view().len() == matched_courses@.len());
    }
    ExpressionResult { matched_courses, success }
}

/// Evaluates a reference to a sibling requirement: the sibling's
/// attached result, or a recoverable failure when the name is absent or
/// the sibling is unevaluated.
fn expr_reference(expression: &ReferenceExpression, children: &Vec<Requirement>) -> (r:
    ExpressionResult)
    ensures
        r.matched_courses.deep_view() == reference_eval(*expression, children.deep_view()).matched,
        r.success == reference_eval(*expression, children.deep_view()).success,
{
    let ghost dv = children.deep_view();
    let ghost name = expression.requirement@;
    let mut i: usize = 0;
    proof {
        assert(dv.skip(0) =~= dv);
    }
    while i < children.len()
        invariant
            i <= children.len(),
            dv == children.deep_view(),
            name == expression.requirement@,
            find_requirement(dv, name) == find_requirement(dv.skip(i as int), name),
        decreases children.len() - i,
    {
        let hit = children[i].name == expression.requirement;
        proof {
            let s = dv.skip(i as int);
            assert(s[0] == dv[i as int]);
            assert(s.drop_first() =~= dv.skip((i + 1) as int));
            assert(dv[i as int].name == children@[i as int].name@);
        }
        if hit {
            match &children[i].evaluated {
                Some(detail) => {
                    return ExpressionResult {
                        matched_courses: clone_courses(&detail.matched_courses),
                        success: detail.success,
                    };
                },
                None => {
                    let empty: Vec<Course> = Vec::new();
                    proof {
                        assert(empty.deep_view() =~= Seq::<CourseV>::empty());
                    }
                    return ExpressionResult { matched_courses: empty, success: false };
                },
            }
        }
        i = i + 1;
    }
    let empty: Vec<Course> = Vec::new();
    proof {
        assert(dv.skip(children.len() as int) =~= Seq::<RequirementV>::empty());
        assert(empty.deep_view() =~= Seq::<CourseV>::empty());
    }
    ExpressionResult { matched_courses: empty, success: false }
}

/// The count of successes is bounded by the number of sub-expressions;
/// at least one succeeds exactly when the count is positive, and all
/// succeed exactly when the count is full.
proof fn lemma_success_count_bounds(
    es: Seq<HansonExpression>,
    children: Seq<RequirementV>,
    courses: Seq<CourseV>,
)
    ensures
        0 <= success_count(es, children, courses) <= es.len(),
        any_succeeds(es, children, courses) <==> success_count(es, children, courses) > 0,
        all_succeed(es, children, courses) <==> success_count(es, children, courses) == es.len(),
    decreases es.len(),
{
    if es.len() > 0 {
        let t = es.drop_last();
        let last = es.len() - 1;
        lemma_success_count_bounds(t, children, courses);
        assert forall|i: int| 0 <= i < t.len() implies #[trigger] t[i] == es[i] by {}
        assert(es.last() == es[last]);
        if any_succeeds(es, children, courses) {
            let i = choose|i: int|
                0 <= i < es.len() && expr_eval(#[trigger] es[i], children, courses).success;
            if i < last {
                assert(expr_eval(t[i], children, courses).success);
                assert(any_succeeds(t, children, courses));
            }
            assert(success_count(es, children, courses) > 0);
        }
        if success_count(es, children, courses) > 0 {
            if expr_eval(es.last(), children, courses).success {
                assert(expr_eval(es[last], children, courses).success);
            } else {
                let i = choose|i: int|
                    0 <= i < t.len() && expr_eval(#[trigger] t[i], children, courses).success;
                assert(expr_eval(es[i], children, courses).success);
            }
            assert(any_succeeds(es, children, courses));
        }
        if all_succeed(es, children, courses) {
            assert forall|i: int| 0 <= i < t.len() implies expr_eval(
                #[trigger] t[i],
                children,
                courses,
            ).success by {
                assert(expr_eval(es[i], children, courses).success);
            }
            assert(expr_eval(es[last], children, courses).success);
            assert(success_count(es, children, courses) == es.len());
        }
        if success_count(es, children, courses) == es.len() {
            assert forall|i: int| 0 <= i < es.len() implies expr_eval(
                #[trigger] es[i],
                children,
                courses,
            ).success by {
                if i < last {
                    assert(expr_eval(t[i], children, courses).success);
                }
            }
        }
    }
}

/// Evaluates each sub-expression against the same sibling set and
/// course list: the concatenation of their matches, and how many
/// succeeded.
fn eval_values(
    values: &Vec<HansonExpression>,
    children: &Vec<Requirement>,
    courses: &Vec<Course>,
) -> (r: (Vec<Course>, usize))
    ensures
        r.0.deep_view() == matched_concat(values@, children.deep_view(), courses.deep_view()),
        r.1 as int == success_count(values@, children.deep_view(), courses.deep_view()),
    decreases values@,
{
    let ghost ch = children.deep_view();
    let ghost cs = courses.deep_view();
    let mut matched: Vec<Course> = Vec::new();
    let mut count: usize = 0;
    let mut i: usize = 0;
    proof {
        assert(matched.deep_view() =~= Seq::<CourseV>::empty());
        assert(values@.take(0) =~= Seq::<HansonExpression>::empty());
    }
    while i < values.len()
        invariant
            i <= values.len(),
            count <= i,
            ch == children.deep_view(),
            cs == courses.deep_view(),
            matched.deep_view() == matched_concat(values@.take(i as int), ch, cs),
            count as int == success_count(values@.take(i as int), ch, cs),
        decreases values.len() - i,
    {
        let ghost pre = matched.deep_view();
        proof {
            assert(decreases_to!(values@ => values@[i as int]));
        }
        let mut sub = compute_expression(&values[i], children, courses, None);
        let ghost subv = sub.matched_courses.deep_view();
        if sub.success {
            count = count + 1;
        }
        matched.append(&mut sub.matched_courses);
        i = i + 1;
        proof {
            let t = values@.take(i as int);
            assert(t.len() == i as int);
            assert(t.drop_last() =~= values@.take((i - 1) as int));
            assert(t.last() == values@[i - 1]);
            assert(matched.deep_view() =~= pre + subv);
        }
    }
    proof {
        assert(values@.take(values.len() as int) =~= values@);
    }
    (matched, count)
}

/// Evaluates a disjunction: every sub-expression sees the same course
/// list; the matches are concatenated and success means at least one
/// sub-expression succeeded.
fn expr_boolean_or(
    expression: &BooleanOrExpression,
    children: &Vec<Requirement>,
    courses: &Vec<Course>,
) -> (r: ExpressionResult)
    ensures
        r.matched_courses.deep_view() == matched_concat(
            expression.values@,
            children.deep_view(),
            courses.deep_view(),
        ),
        r.success == any_succeeds(expression.values@, children.deep_view(), courses.deep_view()),
    decreases *expression,
{
    proof {
        assert(decreases_to!(*expression => expression.values@));
    }
    let (matched_courses, count) = eval_values(&expression.values, children, courses);
    proof {
        lemma_success_count_bounds(expression.values@, children.deep_view(), courses.deep_view());
    }
    ExpressionResult { matched_courses, success: count > 0 }
}

/// Evaluates a conjunction: every sub-expression sees the same course
/// list; the matches are concatenated and success means every
/// sub-expression succeeded.
fn expr_boolean_and(
    expression: &BooleanAndExpression,
    children: &Vec<Requirement>,
    courses: &Vec<Course>,
) -> (r: ExpressionResult)
    ensures
        r.matched_courses.deep_view() == matched_concat(
            expression.values@,
            children.deep_view(),
            courses.deep_view(),
        ),
        r.success == all_succeed(expression.values@, children.deep_view(), courses.deep_view()),
    decreases *expression,
{
    proof {
        assert(decreases_to!(*expression => expression.values@));
    }
    let (matched_courses, count) = eval_values(&expression.values, children, courses);
    proof {
        lemma_success_count_bounds(expression.values@, children.deep_view(), courses.deep_view());
    }
    let success = count == expression.values.len();
    ExpressionResult { matched_courses, success }
}

/// Evaluates an "N of" form: enough of the sub-expressions must
/// succeed, as the counter asks out of their total number.
fn expr_of(expression: &OfExpression, children: &Vec<Requirement>, courses: &Vec<Course>) -> (r:
    ExpressionResult)
    ensures
        r.matched_courses.deep_view() == matched_concat(
            expression.of@,
            children.deep_view(),
            courses.deep_view(),
        ),
        r.success == counter_accepts(
            expression.count,
            success_count(expression.of@, children.deep_view(), courses.deep_view()),
            expression.of@.len() as int,
        ),
    decreases *expression,
{
    proof {
        assert(decreases_to!(*expression => expression.of@));
    }
    let (matched_courses, count) = eval_values(&expression.of, children, courses);
    let success = crate::expression::counter_satisfied(
        &expression.count,
        count as u128,
        expression.of.len() as u128,
    );
    ExpressionResult { matched_courses, success }
}

/// Evaluates an occurrence form: the course predicate must match as
/// often as the counter asks, out of the visible courses.
fn expr_occurrence(expression: &OccurrenceExpression, courses: &Vec<Course>) -> (r:
    ExpressionResult)
    ensures
        r.matched_courses.deep_view() == courses.deep_view().filter(
            course_match_fn(expression.course),
        ),
        r.success == counter_accepts(
            expression.count,
            courses.deep_view().filter(course_match_fn(expression.course)).len() as int,
            courses.deep_view().len() as int,
        ),
{
    let matched_courses = filter_matching(courses, &expression.course);
    let success = crate::expression::counter_satisfied(
        &expression.count,
        matched_courses.len() as u128,
        courses.len() as u128,
    );
    ExpressionResult { matched_courses, success }
}

/// Evaluates a where form: the qualifier sub-engine narrows the course
/// list, and the number that survive is held against the counter.
fn expr_where(expression: &WhereExpression, courses: &Vec<Course>) -> (r: ExpressionResult)
    ensures
        r.matched_courses.deep_view() == where_filter(
            courses.deep_view(),
            expression.qualification,
            expression.distinct,
            None,
            Some(expression.count),
        ),
        r.success == counter_accepts(
            expression.count,
            where_filter(
                courses.deep_view(),
                expression.qualification,
                expression.distinct,
                None,
                Some(expression.count),
            ).len() as int,
            courses.deep_view().len() as int,
        ),
{
    let copy = clone_courses(courses);
    let matched_courses = crate::filter::filter_by_where_clause(
        copy,
        &expression.qualification,
        expression.distinct,
        None,
        Some(expression.count),
    );
    let success = crate::expression::counter_satisfied(
        &expression.count,
        matched_courses.len() as u128,
        courses.len() as u128,
    );
    ExpressionResult { matched_courses, success }
}

/// Gathers the courses matched by the named child requirements.
fn gather_children(refs: &Vec<ReferenceExpression>, children: &Vec<Requirement>) -> (r: Vec<
    Course,
>)
    ensures
        r.deep_view() == children_matched(refs@, children.deep_view()),
{
    let ghost ch = children.deep_view();
    let mut out: Vec<Course> = Vec::new();
    let mut i: usize = 0;
    proof {
        assert(out.deep_view() =~= Seq::<CourseV>::empty());
        assert(refs@.take(0) =~= Seq::<ReferenceExpression>::empty());
    }
    while i < refs.len()
        invariant
            i <= refs.len(),
            ch == children.deep_view(),
            out.deep_view() == children_matched(refs@.take(i as int), ch),
        decreases refs.len() - i,
    {
        let ghost pre = out.deep_view();
        let mut sub = expr_reference(&refs[i], children);
        let ghost subv = sub.matched_courses.deep_view();
        out.append(&mut sub.matched_courses);
        i = i + 1;
        proof {
            let t = refs@.take(i as int);
            assert(t.len() == i as int);
            assert(t.drop_last() =~= refs@.take((i - 1) as int));
            assert(t.last() == refs@[i - 1]);
            assert(out.deep_view() =~= pre + subv);
        }
    }
    proof {
        assert(refs@.take(refs.len() as int) =~= refs@);
    }
    out
}

/// Sets aside the courses matching a modifier's `besides` predicate.
fn remove_besides(pool: Vec<Course>, besides: &Option<CourseExpression>) -> (r: Vec<Course>)
    ensures
        r.deep_view() == pool.deep_view().filter(besides_fn(*besides)),
{
    let ghost dv = pool.deep_view();
    let ghost p = besides_fn(*besides);
    let mut kept: Vec<Course> = Vec::new();
    let mut i: usize = 0;
    proof {
        reveal_with_fuel(Seq::filter, 2);
        assert(dv.take(0).filter(p) =~= Seq::<CourseV>::empty());
    }
    while i < pool.len()
        invariant
            i <= pool.len(),
            dv == pool.deep_view(),
            p == besides_fn(*besides),
            kept.deep_view() == dv.take(i as int).filter(p),
        decreases pool.len() - i,
    {
        let ghost pre = kept.deep_view();
        let hit = match besides {
            Some(e) => !compare_courses(e, &pool[i]),
            None => true,
        };
        if hit {
            kept.push(pool[i].clone());
        }
        i = i + 1;
        proof {
            reveal_with_fuel(Seq::filter, 2);
            let t = dv.take(i as int);
            assert(t.len() == i as int);
            assert(t.drop_last() =~= dv.take((i - 1) as int));
            assert(t.last() == dv[i - 1]);
            assert(p(dv[i - 1]) == hit);
            if hit {
                assert(kept.deep_view() =~= pre.push(dv[i - 1]));
            }
        }
    }
    proof {
        assert(dv.take(pool.len() as int) =~= dv);
    }
    kept
}

proof fn lemma_credit_sum_range(s: Seq<CourseV>)
    requires
        forall|k: int| 0 <= k < s.len() ==> 0 <= #[trigger] s[k].credits <= 0xffff_ffff,
    ensures
        0 <= credit_sum(s) <= s.len() * 0xffff_ffff,
    decreases s.len(),
{
    if s.len() > 0 {
        let t = s.drop_last();
        assert forall|k: int| 0 <= k < t.len() implies 0 <= #[trigger] t[k].credits
            <= 0xffff_ffff by {
            assert(t[k] == s[k]);
        }
        lemma_credit_sum_range(t);
        assert(s.len() * 0xffff_ffff == t.len() * 0xffff_ffff + 0xffff_ffff) by (nonlinear_arith)
            requires
                t.len() == s.len() - 1,
        ;
    }
}

/// Sums the credits of a course list, in hundredths of a credit.
fn credit_total(pool: &Vec<Course>) -> (r: u128)
    ensures
        r as int == credit_sum(pool.deep_view()),
{
    let ghost dv = pool.deep_view();
    proof {
        assert forall|k: int| 0 <= k < dv.len() implies 0 <= #[trigger] dv[k].credits
            <= 0xffff_ffff by {
            assert(dv[k] == pool@[k]@);
        }
    }
    let mut acc: u128 = 0;
    let mut i: usize = 0;
    while i < pool.len()
        invariant
            i <= pool.len(),
            dv == pool.deep_view(),
            forall|k: int| 0 <= k < dv.len() ==> 0 <= #[trigger] dv[k].credits <= 0xffff_ffff,
            acc as int == credit_sum(dv.take(i as int)),
        decreases pool.len() - i,
    {
        proof {
            let t = dv.take((i + 1) as int);
            assert(t.len() == i + 1);
            assert(t.drop_last() =~= dv.take(i as int));
            assert(t.last() == dv[i as int]);
            assert forall|k: int| 0 <= k < t.len() implies 0 <= #[trigger] t[k].credits
                <= 0xffff_ffff by {
                assert(t[k] == dv[k]);
            }
            lemma_credit_sum_range(t);
            assert(t.len() <= usize::MAX as int);
            assert(credit_sum(t) <= t.len() * 0xffff_ffff);
            assert(t.len() * 0xffff_ffff <= (usize::MAX as int) * 0xffff_ffff) by (nonlinear_arith)
                requires
                    0 <= t.len() <= usize::MAX as int,
            ;
            assert(usize::MAX as int <= 0xffff_ffff_ffff_ffff);
            assert((usize::MAX as int) * 0xffff_ffff <= 0xffff_ffff_ffff_ffff * 0xffff_ffff) by (
            nonlinear_arith)
                requires
                    0 <= usize::MAX as int <= 0xffff_ffff_ffff_ffff,
            ;
        }
        acc = acc + (pool[i].credits as u128);
        i = i + 1;
    }
    proof {
        assert(dv.take(pool.len() as int) =~= dv);
    }
    acc
}

/// Collects every department tag of a course list, in order.
fn gather_tags(pool: &Vec<Course>) -> (r: Vec<String>)
    ensures
        r.deep_view() == tags_concat(pool.deep_view()),
{
    let ghost dv = pool.deep_view();
    let mut out: Vec<String> = Vec::new();
    let mut i: usize = 0;
    proof {
        assert(out.deep_view() =~= Seq::<Seq<char>>::empty());
        assert(dv.take(0) =~= Seq::<CourseV>::empty());
    }
    while i < pool.len()
        invariant
            i <= pool.len(),
            dv == pool.deep_view(),
            out.deep_view() == tags_concat(dv.take(i as int)),
        decreases pool.len() - i,
    {
        let ghost pre = out.deep_view();
        let mut tags = crate::course::clone_strings(&pool[i].department);
        let ghost tagsv = tags.deep_view();
        out.append(&mut tags);
        i = i + 1;
        proof {
            let t = dv.take(i as int);
            assert(t.len() == i as int);
            assert(t.drop_last() =~= dv.take((i - 1) as int));
            assert(t.last() == dv[i - 1]);
            assert(out.deep_view() =~= pre + tagsv);
        }
    }
    proof {
        assert(dv.take(pool.len() as int) =~= dv);
    }
    out
}

/// Counts the distinct tags in a tag list.
fn count_uniq_tags(tags: &Vec<String>) -> (r: usize)
    ensures
        r as int == uniq(tags.deep_view()).len(),
{
    let ghost dv = tags.deep_view();
    let mut count: usize = 0;
    let mut j: usize = 0;
    proof {
        assert(dv.take(0) =~= Seq::<Seq<char>>::empty());
    }
    while j < tags.len()
        invariant
            j <= tags.len(),
            count <= j,
            dv == tags.deep_view(),
            count as int == uniq(dv.take(j as int)).len(),
        decreases tags.len() - j,
    {
        let mut seen = false;
        let mut k: usize = 0;
        while k < j
            invariant
                k <= j < tags.len(),
                dv == tags.deep_view(),
                seen == exists|m: int| 0 <= m < k && #[trigger] dv[m] == dv[j as int],
            decreases j - k,
        {
            if tags[k] == tags[j] {
                proof {
                    assert(dv[k as int] == dv[j as int]);
                }
                seen = true;
            }
            k = k + 1;
        }
        if !seen {
            count = count + 1;
        }
        j = j + 1;
        proof {
            let t = dv.take(j as int);
            assert(t.len() == j as int);
            assert(t.drop_last() =~= dv.take((j - 1) as int));
            assert(t.last() == dv[j - 1]);
            if seen {
                let m = choose|m: int| 0 <= m < j - 1 && #[trigger] dv[m] == dv[j - 1];
                assert(t.drop_last()[m] == dv[j - 1]);
                assert(t.drop_last().contains(t.last()));
            } else {
                assert forall|m: int| 0 <= m < t.drop_last().len() implies #[trigger] t.drop_last()[m]
                    != t.last() by {
                    assert(t.drop_last()[m] == dv[m]);
                }
                assert(!t.drop_last().contains(t.last()));
            }
        }
    }
    proof {
        assert(dv.take(tags.len() as int) =~= dv);
    }
    count
}

/// Measures a course pool as a modifier counts it: courses, credits, or
/// distinct department tags.
fn measure_courses(what: WhatEnum, pool: &Vec<Course>) -> (r: u128)
    ensures
        r as int == measure_of(what, pool.deep_view()),
{
    match what {
        WhatEnum::Course => pool.len() as u128,
        WhatEnum::Credit => credit_total(pool),
        WhatEnum::Department => {
            let tags = gather_tags(pool);
            count_uniq_tags(&tags) as u128
        },
    }
}

/// Evaluates a modifier: gathers its pool, sets `besides` matches
/// aside, narrows by its qualification where it carries one, and holds
/// the measured count against the counter.
fn expr_modifier(
    expression: &ModifierExpression,
    children: &Vec<Requirement>,
    courses: &Vec<Course>,
) -> (r: ExpressionResult)
    ensures
        r.matched_courses.deep_view() == modifier_eval(
            *expression,
            children.deep_view(),
            courses.deep_view(),
        ).matched,
        r.success == modifier_eval(*expression, children.deep_view(), courses.deep_view()).success,
{
    let pool: Vec<Course> = match expression {
        ModifierExpression::Children(c) => gather_children(&c.children, children),
        ModifierExpression::ChildrenWhere(cw) => gather_children(&cw.children, children),
        _ => clone_courses(courses),
    };
    let besides: &Option<CourseExpression> = match expression {
        ModifierExpression::Where(w) => &w.besides,
        ModifierExpression::Filter(f) => &f.besides,
        ModifierExpression::FilterWhere(fw) => &fw.besides,
        ModifierExpression::Children(c) => &c.besides,
        ModifierExpression::ChildrenWhere(cw) => &cw.besides,
    };
    let kept = remove_besides(pool, besides);
    let narrowed: Vec<Course> = match expression {
        ModifierExpression::Where(w) => crate::filter::filter_by_where_clause(
            clone_courses(&kept),
            &w.qualification,
            false,
            None,
            None,
        ),
        ModifierExpression::FilterWhere(fw) => crate::filter::filter_by_where_clause(
            clone_courses(&kept),
            &fw.qualification,
            false,
            None,
            None,
        ),
        ModifierExpression::ChildrenWhere(cw) => crate::filter::filter_by_where_clause(
            clone_courses(&kept),
            &cw.qualification,
            false,
            None,
            None,
        ),
        _ => clone_courses(&kept),
    };
    let counter: &crate::expression::ExpressionCounter = match expression {
        ModifierExpression::Where(w) => &w.count,
        ModifierExpression::Filter(f) => &f.count,
        ModifierExpression::FilterWhere(fw) => &fw.count,
        ModifierExpression::Children(c) => &c.count,
        ModifierExpression::ChildrenWhere(cw) => &cw.count,
    };
    let what: WhatEnum = match expression {
        ModifierExpression::Where(w) => w.what,
        ModifierExpression::Filter(f) => f.what,
        ModifierExpression::FilterWhere(fw) => fw.what,
        ModifierExpression::Children(c) => c.what,
        ModifierExpression::ChildrenWhere(cw) => cw.what,
    };
    let total = measure_courses(what, &kept);
    let achieved = measure_courses(what, &narrowed);
    let success = crate::expression::counter_satisfied(counter, achieved, total);
    ExpressionResult { matched_courses: narrowed, success }
}

/// Evaluates one expression against the already-evaluated sibling
/// requirements and the visible course list.  The result is a pure
/// function of those inputs, pinned down by `expr_eval`.  The
/// fulfillment, where one applies to the node, is recorded by the
/// requirement evaluator; substituting it into the body is a reserved
/// extension point, so it is carried here but not yet consulted.
pub fn compute_expression(
    expression: &HansonExpression,
    children: &Vec<Requirement>,
    courses: &Vec<Course>,
    _fulfillment: Option<&Course>,
) -> (r: ExpressionResult)
    ensures
        r.matched_courses.deep_view() == expr_eval(
            *expression,
            children.deep_view(),
            courses.deep_view(),
        ).matched,
        r.success == expr_eval(*expression, children.deep_view(), courses.deep_view()).success,
    decreases *expression,
{
    match expression {
        HansonExpression::Course(expr) => expr_course(expr, courses),
        HansonExpression::Of(expr) => {
            proof {
                assert(decreases_to!(*expression => *expr));
            }
            expr_of(expr, children, courses)
        },
        HansonExpression::Reference(expr) => expr_reference(expr, children),
        HansonExpression::BooleanOr(expr) => {
            proof {
                assert(decreases_to!(*expression => *expr));
            }
            expr_boolean_or(expr, children, courses)
        },
        HansonExpression::BooleanAnd(expr) => {
            proof {
                assert(decreases_to!(*expression => *expr));
            }
            expr_boolean_and(expr, children, courses)
        },
        HansonExpression::Modifier(expr) => expr_modifier(expr, children, courses),
        HansonExpression::Occurrence(expr) => expr_occurrence(expr, courses),
        HansonExpression::Where(expr) => expr_where(expr, courses),
    }
}

/// The boolean-algebra reading of the conjunction and disjunction
/// forms: a conjunction succeeds exactly when every sub-expression
/// does, a disjunction exactly when at least one does; of the empty
/// list the conjunction succeeds and the disjunction fails, the
/// standard identities.
pub proof fn lemma_boolean_identities(
    e_and: BooleanAndExpression,
    e_or: BooleanOrExpression,
    children: Seq<RequirementV>,
    courses: Seq<CourseV>,
)
    ensures
        expr_eval(HansonExpression::BooleanAnd(e_and), children, courses).success <==> (forall|
            i: int,
        |
            0 <= i < e_and.values@.len() ==> expr_eval(
                #[trigger] e_and.values@[i],
                children,
                courses,
            ).success),
        expr_eval(HansonExpression::BooleanOr(e_or), children, courses).success <==> (exists|
            i: int,
        |
            0 <= i < e_or.values@.len() && expr_eval(
                #[trigger] e_or.values@[i],
                children,
                courses,
            ).success),
        e_and.values@.len() == 0 ==> expr_eval(
            HansonExpression::BooleanAnd(e_and),
            children,
            courses,
        ).success,
        e_or.values@.len() == 0 ==> !expr_eval(
            HansonExpression::BooleanOr(e_or),
            children,
            courses,
        ).success,
{
}

} // verus!
