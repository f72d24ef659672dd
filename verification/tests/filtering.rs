use examine::compute::compute_expression;
use examine::course::Course;
use examine::evaluate::Requirement;
use examine::expression::CourseExpression;
use examine::expression::ExpressionCounter;
use examine::expression::FieldNameEnum;
use examine::expression::FilterExpression;
use examine::expression::FilterOfExpression;
use examine::expression::FilterWhereExpression;
use examine::expression::HansonExpression;
use examine::expression::NumericValue;
use examine::expression::OccurrenceExpression;
use examine::expression::OfExpression;
use examine::expression::Operator;
use examine::expression::Qualification;
use examine::expression::QualificationOperator;
use examine::expression::QualificationValue;
use examine::expression::SingleQualification;
use examine::expression::Shorthand;
use examine::expression::WhereExpression;
use examine::filter::apply_filter;
use examine::filter::filter_by_qualification;
use examine::filter::filter_by_where_clause;
use examine::order::distinct_courses;

fn course(dept: &str, number: i32, year: i32) -> Course {
    Course {
        clbid: format!("{}-{}-{}", dept, number, year),
        credits: 100,
        crsid: format!("{}-{}-id", dept, number),
        department: vec![dept.to_string()],
        groupid: None,
        grouptype: None,
        section: None,
        level: (number / 100) * 100,
        number,
        semester: 1,
        year,
    }
}

fn course_expr(dept: &str, number: i32) -> CourseExpression {
    CourseExpression {
        department: vec![dept.to_string()],
        level: None,
        number,
        semester: None,
        year: None,
    }
}

fn year_at_least(year: i32) -> SingleQualification {
    SingleQualification {
        key: FieldNameEnum::Year,
        value: QualificationValue::Number(NumericValue { value: year }),
        operator: QualificationOperator::Gte,
    }
}

#[test]
fn of_filter_keeps_only_listed_courses() {
    let courses = vec![
        course("CSCI", 121, 2019),
        course("MATH", 100, 2020),
        course("ART", 200, 2021),
    ];
    let filter = FilterExpression::Of(FilterOfExpression {
        distinct: false,
        of: vec![course_expr("CSCI", 121), course_expr("ART", 200)],
    });

    let kept = apply_filter(&filter, courses);

    assert_eq!(kept.len(), 2);
    assert_eq!(kept[0].department, vec!["CSCI".to_string()]);
    assert_eq!(kept[1].department, vec!["ART".to_string()]);
}

#[test]
fn where_filter_retains_by_field_comparison() {
    let courses = vec![
        course("CSCI", 121, 2019),
        course("MATH", 100, 2020),
        course("ART", 200, 2021),
    ];
    let filter = FilterExpression::Where(FilterWhereExpression {
        distinct: false,
        qualification: Qualification::Single(year_at_least(2020)),
    });

    let kept = apply_filter(&filter, courses);

    assert_eq!(kept.len(), 2);
    assert_eq!(kept[0].year, 2020);
    assert_eq!(kept[1].year, 2021);
}

#[test]
fn counter_truncates_retained_courses() {
    let courses = vec![
        course("CSCI", 121, 2019),
        course("CSCI", 125, 2020),
        course("CSCI", 127, 2021),
    ];
    let counter = ExpressionCounter { operator: Operator::Lte, was: None, num: Some(2) };

    let kept = filter_by_qualification(
        courses,
        &year_at_least(2000),
        false,
        None,
        Some(counter),
    );

    // input order, first two
    assert_eq!(kept.len(), 2);
    assert_eq!(kept[0].number, 121);
    assert_eq!(kept[1].number, 125);
}

#[test]
fn gte_counter_leaves_list_untouched() {
    let courses = vec![course("CSCI", 121, 2019), course("CSCI", 125, 2020)];
    let counter = ExpressionCounter { operator: Operator::Gte, was: None, num: Some(1) };

    let kept = filter_by_qualification(
        courses,
        &year_at_least(2000),
        false,
        None,
        Some(counter),
    );

    assert_eq!(kept.len(), 2);
}

#[test]
fn min_aggregate_compares_against_computed_value() {
    let courses = vec![
        course("CSCI", 121, 2019),
        course("MATH", 100, 2020),
        course("ART", 200, 2021),
    ];
    let clause = SingleQualification {
        key: FieldNameEnum::Year,
        value: QualificationValue::Function(examine::expression::FunctionValue {
            name: examine::expression::FunctionNameEnum::Min,
            prop: FieldNameEnum::Year,
            qualifier: Box::new(Qualification::Single(year_at_least(0))),
            computed_value: None,
        }),
        operator: QualificationOperator::Eq,
    };

    // keep courses whose year equals the smallest year present
    let kept = filter_by_qualification(courses, &clause, false, None, None);

    assert_eq!(kept.len(), 1);
    assert_eq!(kept[0].year, 2019);
}

#[test]
fn or_qualifier_unites_over_the_original_list() {
    let courses = vec![
        course("CSCI", 121, 2019),
        course("MATH", 100, 2020),
        course("ART", 200, 2021),
    ];
    let clause = Qualification::BooleanOr(examine::expression::OrQualification {
        values: vec![
            Qualification::Single(year_at_least(2021)),
            Qualification::Single(SingleQualification {
                key: FieldNameEnum::Year,
                value: QualificationValue::Number(NumericValue { value: 2019 }),
                operator: QualificationOperator::Lte,
            }),
        ],
    });

    let kept = filter_by_where_clause(courses, &clause, false, None, None);

    assert_eq!(kept.len(), 2);
    assert_eq!(kept[0].year, 2021);
    assert_eq!(kept[1].year, 2019);
}

#[test]
fn and_qualifier_narrows_step_by_step() {
    let courses = vec![
        course("CSCI", 121, 2019),
        course("MATH", 100, 2020),
        course("ART", 200, 2021),
    ];
    let clause = Qualification::BooleanAnd(examine::expression::AndQualification {
        values: vec![
            Qualification::Single(year_at_least(2020)),
            Qualification::Single(SingleQualification {
                key: FieldNameEnum::Year,
                value: QualificationValue::Number(NumericValue { value: 2020 }),
                operator: QualificationOperator::Lte,
            }),
        ],
    });

    let kept = filter_by_where_clause(courses, &clause, false, None, None);

    assert_eq!(kept.len(), 1);
    assert_eq!(kept[0].year, 2020);
}

#[test]
fn filters_never_invent_courses() {
    let courses = vec![
        course("CSCI", 121, 2019),
        course("MATH", 100, 2020),
        course("ART", 200, 2021),
    ];
    let input_ids: Vec<String> = courses.iter().map(|c| c.clbid.clone()).collect();
    let filter = FilterExpression::Where(FilterWhereExpression {
        distinct: true,
        qualification: Qualification::Single(year_at_least(2020)),
    });

    let kept = apply_filter(&filter, courses);

    for c in &kept {
        assert!(input_ids.contains(&c.clbid));
    }
}

#[test]
fn distinct_applies_once_at_composition_end() {
    // an empty conjunction narrows nothing; under the distinct policy
    // the duplicate must still be removed at the end of the composition
    let courses = vec![course("CSCI", 121, 2019), course("CSCI", 121, 2019)];
    let empty_and = Qualification::BooleanAnd(examine::expression::AndQualification {
        values: Vec::new(),
    });
    let kept = filter_by_where_clause(courses, &empty_and, true, None, None);
    assert_eq!(kept.len(), 1);

    // a distinct run returns the distinct policy applied to the plain
    // run: same courses as a set, no step-wise dedup before truncation
    let make_courses = || vec![course("CSCI", 121, 2019), course("MATH", 100, 2020)];
    let make_clause = || {
        Qualification::BooleanAnd(examine::expression::AndQualification {
            values: vec![
                Qualification::BooleanOr(examine::expression::OrQualification {
                    values: vec![
                        Qualification::Single(SingleQualification {
                            key: FieldNameEnum::Year,
                            value: QualificationValue::Number(NumericValue { value: 2019 }),
                            operator: QualificationOperator::Eq,
                        }),
                        Qualification::Single(year_at_least(0)),
                    ],
                }),
                Qualification::Single(year_at_least(0)),
            ],
        })
    };
    let counter = ExpressionCounter { operator: Operator::Lte, was: None, num: Some(2) };

    let plain = filter_by_where_clause(make_courses(), &make_clause(), false, None, Some(counter));
    let deduped = filter_by_where_clause(make_courses(), &make_clause(), true, None, Some(counter));

    assert_eq!(plain.len(), 2);
    assert_eq!(deduped.len(), 1);
    for c in &deduped {
        assert!(plain.iter().any(|p| p.clbid == c.clbid));
    }
}

#[test]
fn distinct_sorts_and_removes_duplicates() {
    let a = course("CSCI", 121, 2019);
    let b = course("ART", 200, 2021);
    let a_again = course("CSCI", 121, 2019);
    let courses = vec![a, b, a_again];

    let kept = distinct_courses(&courses);

    assert_eq!(kept.len(), 2);
    // sorted by clbid first: "ART-200-2021" sorts before "CSCI-121-2019"
    assert_eq!(kept[0].department, vec!["ART".to_string()]);
    assert_eq!(kept[1].department, vec!["CSCI".to_string()]);
}

#[test]
fn of_expression_counts_successes() {
    let body = HansonExpression::Of(OfExpression {
        count: ExpressionCounter { operator: Operator::Gte, was: None, num: Some(2) },
        of: vec![
            HansonExpression::Course(course_expr("CSCI", 121)),
            HansonExpression::Course(course_expr("MATH", 100)),
            HansonExpression::Course(course_expr("ART", 999)),
        ],
    });
    let courses = vec![course("CSCI", 121, 2019), course("MATH", 100, 2020)];
    let children: Vec<Requirement> = Vec::new();

    let result = compute_expression(&body, &children, &courses, None);

    assert!(result.success);
    assert_eq!(result.matched_courses.len(), 2);

    let too_many = HansonExpression::Of(OfExpression {
        count: ExpressionCounter { operator: Operator::Gte, was: None, num: Some(3) },
        of: vec![
            HansonExpression::Course(course_expr("CSCI", 121)),
            HansonExpression::Course(course_expr("MATH", 100)),
            HansonExpression::Course(course_expr("ART", 999)),
        ],
    });
    assert!(!compute_expression(&too_many, &children, &courses, None).success);
}

#[test]
fn all_shorthand_asks_for_every_one() {
    let body = HansonExpression::Of(OfExpression {
        count: ExpressionCounter { operator: Operator::Gte, was: Some(Shorthand::All), num: None },
        of: vec![
            HansonExpression::Course(course_expr("CSCI", 121)),
            HansonExpression::Course(course_expr("MATH", 100)),
        ],
    });
    let children: Vec<Requirement> = Vec::new();

    let both = vec![course("CSCI", 121, 2019), course("MATH", 100, 2020)];
    assert!(compute_expression(&body, &children, &both, None).success);

    let one = vec![course("CSCI", 121, 2019)];
    assert!(!compute_expression(&body, &children, &one, None).success);
}

#[test]
fn occurrence_requires_enough_matches() {
    let body = HansonExpression::Occurrence(OccurrenceExpression {
        course: course_expr("CSCI", 121),
        count: ExpressionCounter { operator: Operator::Gte, was: None, num: Some(2) },
    });
    let children: Vec<Requirement> = Vec::new();

    let twice = vec![course("CSCI", 121, 2019), course("CSCI", 121, 2020)];
    let result = compute_expression(&body, &children, &twice, None);
    assert!(result.success);
    assert_eq!(result.matched_courses.len(), 2);

    let once = vec![course("CSCI", 121, 2019)];
    assert!(!compute_expression(&body, &children, &once, None).success);
}

#[test]
fn where_expression_filters_and_counts() {
    let body = HansonExpression::Where(WhereExpression {
        qualification: Qualification::Single(year_at_least(2020)),
        count: ExpressionCounter { operator: Operator::Gte, was: None, num: Some(2) },
        distinct: false,
    });
    let children: Vec<Requirement> = Vec::new();

    let courses = vec![
        course("CSCI", 121, 2019),
        course("MATH", 100, 2020),
        course("ART", 200, 2021),
    ];
    let result = compute_expression(&body, &children, &courses, None);
    assert!(result.success);
    assert_eq!(result.matched_courses.len(), 2);

    let older = vec![course("CSCI", 121, 2019)];
    assert!(!compute_expression(&body, &children, &older, None).success);
}

#[test]
fn modifier_counts_distinct_departments() {
    let body = HansonExpression::Modifier(examine::expression::ModifierExpression::Filter(
        examine::expression::Filter {
            count: ExpressionCounter { operator: Operator::Gte, was: None, num: Some(2) },
            what: examine::expression::WhatEnum::Department,
            besides: None,
        },
    ));
    let children: Vec<Requirement> = Vec::new();

    let courses = vec![
        course("CSCI", 121, 2019),
        course("CSCI", 125, 2020),
        course("MATH", 100, 2020),
    ];
    let result = compute_expression(&body, &children, &courses, None);
    assert!(result.success);

    let single_dept = vec![course("CSCI", 121, 2019), course("CSCI", 125, 2020)];
    assert!(!compute_expression(&body, &children, &single_dept, None).success);
}

#[test]
fn modifier_besides_sets_a_course_aside() {
    let body = HansonExpression::Modifier(examine::expression::ModifierExpression::Filter(
        examine::expression::Filter {
            count: ExpressionCounter { operator: Operator::Gte, was: None, num: Some(2) },
            what: examine::expression::WhatEnum::Course,
            besides: Some(course_expr("CSCI", 121)),
        },
    ));
    let children: Vec<Requirement> = Vec::new();

    let courses = vec![course("CSCI", 121, 2019), course("MATH", 100, 2020)];
    let result = compute_expression(&body, &children, &courses, None);
    assert!(!result.success);
    assert_eq!(result.matched_courses.len(), 1);
    assert_eq!(result.matched_courses[0].department, vec!["MATH".to_string()]);
}

#[test]
fn modifier_sums_credits() {
    let body = HansonExpression::Modifier(examine::expression::ModifierExpression::Filter(
        examine::expression::Filter {
            // 200 hundredths: two full credits
            count: ExpressionCounter { operator: Operator::Gte, was: None, num: Some(200) },
            what: examine::expression::WhatEnum::Credit,
            besides: None,
        },
    ));
    let children: Vec<Requirement> = Vec::new();

    let courses = vec![course("CSCI", 121, 2019), course("MATH", 100, 2020)];
    assert!(compute_expression(&body, &children, &courses, None).success);

    let one = vec![course("CSCI", 121, 2019)];
    assert!(!compute_expression(&body, &children, &one, None).success);
}
