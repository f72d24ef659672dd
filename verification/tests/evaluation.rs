use examine::compute::compute_expression;
use examine::course::Course;
use examine::evaluate::evaluate_area;
use examine::evaluate::make_requirement_path;
use examine::evaluate::AreaOfStudy;
use examine::evaluate::FulfillmentMap;
use examine::evaluate::OverrideMap;
use examine::evaluate::Requirement;
use examine::expression::BooleanAndExpression;
use examine::expression::BooleanOrExpression;
use examine::expression::CourseExpression;
use examine::expression::HansonExpression;
use examine::expression::ReferenceExpression;

fn course(dept: &str, number: i32, year: i32, semester: i32) -> Course {
    Course {
        clbid: format!("{}-{}", dept, number),
        credits: 100,
        crsid: format!("{}-{}-id", dept, number),
        department: vec![dept.to_string()],
        groupid: None,
        grouptype: None,
        section: None,
        level: (number / 100) * 100,
        number,
        semester,
        year,
    }
}

fn course_expr(dept: &str, number: i32) -> CourseExpression {
    CourseExpression {
        department: vec![dept.to_string()],
        level: None,
        number,
        semester: None,
        year: None,
    }
}

fn requirement(name: &str, body: Option<HansonExpression>) -> Requirement {
    Requirement {
        name: name.to_string(),
        result: body,
        message: None,
        filter: None,
        children_share_courses: None,
        children: Vec::new(),
        evaluated: None,
    }
}

fn one_requirement_area(root: HansonExpression, req: Requirement) -> AreaOfStudy {
    AreaOfStudy {
        area_type: "Major".to_string(),
        area_name: "AreaName".to_string(),
        area_revision: "2020-21".to_string(),
        area_url: None,
        result: root,
        children: vec![req],
        evaluated: None,
    }
}

#[test]
fn single_course_requirement_succeeds() {
    let req = requirement(
        "R",
        Some(HansonExpression::Course(course_expr("CSCI", 121))),
    );
    let area = one_requirement_area(
        HansonExpression::Course(course_expr("CSCI", 121)),
        req,
    );
    let courses = vec![course("CSCI", 121, 2020, 1)];
    let overrides = OverrideMap::new();
    let fulfillments = FulfillmentMap::new();

    let result = evaluate_area(&courses, &overrides, &fulfillments, area);

    let r = &result.children[0];
    let detail = r.evaluated.as_ref().expect("requirement should carry a result");
    assert!(detail.success);
    assert_eq!(detail.matched_courses.len(), 1);
    assert_eq!(detail.matched_courses[0].number, 121);
    assert_eq!(detail.matched_courses[0].year, 2020);
    assert!(!detail.overridden);

    let area_detail = result.evaluated.as_ref().expect("area should carry a result");
    assert_eq!(area_detail.progress, (1, 1));
    assert!(area_detail.success);
}

#[test]
fn override_replaces_computed_success() {
    let req = requirement(
        "R",
        Some(HansonExpression::Course(course_expr("CSCI", 121))),
    );
    let area = one_requirement_area(
        HansonExpression::Course(course_expr("CSCI", 121)),
        req,
    );
    let courses = vec![course("CSCI", 121, 2020, 1)];
    let mut overrides = OverrideMap::new();
    overrides.insert("areaname\u{1c}major\u{1c}r".to_string(), false);
    let fulfillments = FulfillmentMap::new();

    let result = evaluate_area(&courses, &overrides, &fulfillments, area);

    let detail = result.children[0]
        .evaluated
        .as_ref()
        .expect("requirement should carry a result");
    assert!(!detail.success);
    assert!(detail.overridden);
    assert_eq!(detail.matched_courses.len(), 1);
}

#[test]
fn and_of_two_courses_with_one_match_fails() {
    let body = HansonExpression::BooleanAnd(BooleanAndExpression {
        values: vec![
            HansonExpression::Course(course_expr("CSCI", 121)),
            HansonExpression::Course(course_expr("MATH", 100)),
        ],
    });
    let courses = vec![course("CSCI", 121, 2020, 1)];
    let children: Vec<Requirement> = Vec::new();

    let result = compute_expression(&body, &children, &courses, None);

    assert!(!result.success);
    assert_eq!(result.matched_courses.len(), 1);
    assert_eq!(result.matched_courses[0].department, vec!["CSCI".to_string()]);
}

#[test]
fn reference_copies_sibling_result() {
    let req = requirement(
        "R",
        Some(HansonExpression::Course(course_expr("CSCI", 121))),
    );
    let area = one_requirement_area(
        HansonExpression::Reference(ReferenceExpression { requirement: "R".to_string() }),
        req,
    );
    let courses = vec![course("CSCI", 121, 2020, 1)];
    let overrides = OverrideMap::new();
    let fulfillments = FulfillmentMap::new();

    let result = evaluate_area(&courses, &overrides, &fulfillments, area);

    let area_detail = result.evaluated.as_ref().expect("area should carry a result");
    assert!(area_detail.success);
    let child_detail = result.children[0].evaluated.as_ref().unwrap();
    assert!(child_detail.success);
    assert_eq!(child_detail.matched_courses.len(), 1);
}

#[test]
fn empty_conjunction_succeeds_and_empty_disjunction_fails() {
    let empty_and = HansonExpression::BooleanAnd(BooleanAndExpression { values: Vec::new() });
    let empty_or = HansonExpression::BooleanOr(BooleanOrExpression { values: Vec::new() });
    let courses = vec![course("CSCI", 121, 2020, 1)];
    let children: Vec<Requirement> = Vec::new();

    let and_result = compute_expression(&empty_and, &children, &courses, None);
    assert!(and_result.success);
    assert!(and_result.matched_courses.is_empty());

    let or_result = compute_expression(&empty_or, &children, &courses, None);
    assert!(!or_result.success);
    assert!(or_result.matched_courses.is_empty());
}

#[test]
fn requirement_path_joins_and_lowercases() {
    let path = vec!["AreaName".to_string(), "Major".to_string(), "R".to_string()];
    let key = make_requirement_path(&path);
    assert_eq!(key, "areaname\u{1c}major\u{1c}r");

    let single = vec!["Overview".to_string()];
    assert_eq!(make_requirement_path(&single), "overview");
}

#[test]
fn fulfillment_is_recorded_at_its_path() {
    let req = requirement(
        "R",
        Some(HansonExpression::Course(course_expr("CSCI", 121))),
    );
    let area = one_requirement_area(
        HansonExpression::Course(course_expr("CSCI", 121)),
        req,
    );
    let courses = vec![course("CSCI", 121, 2020, 1)];
    let overrides = OverrideMap::new();
    let mut fulfillments = FulfillmentMap::new();
    fulfillments.insert(
        "areaname\u{1c}major\u{1c}r".to_string(),
        course("MATH", 100, 2019, 2),
    );

    let result = evaluate_area(&courses, &overrides, &fulfillments, area);

    let detail = result.children[0].evaluated.as_ref().unwrap();
    let applied = detail.applied_fulfillment.as_ref().expect("fulfillment should be recorded");
    assert_eq!(applied.number, 100);
    assert_eq!(applied.department, vec!["MATH".to_string()]);
}

#[test]
fn irrelevant_fulfillment_changes_nothing() {
    let make_area = || {
        one_requirement_area(
            HansonExpression::Course(course_expr("CSCI", 121)),
            requirement(
                "R",
                Some(HansonExpression::Course(course_expr("CSCI", 121))),
            ),
        )
    };
    let courses = vec![course("CSCI", 121, 2020, 1)];
    let overrides = OverrideMap::new();

    let empty_fulfillments = FulfillmentMap::new();
    let plain = evaluate_area(&courses, &overrides, &empty_fulfillments, make_area());

    let mut stray_fulfillments = FulfillmentMap::new();
    stray_fulfillments.insert(
        "someotherarea\u{1c}major\u{1c}x".to_string(),
        course("ART", 200, 2018, 1),
    );
    let with_stray = evaluate_area(&courses, &overrides, &stray_fulfillments, make_area());

    let a = plain.children[0].evaluated.as_ref().unwrap();
    let b = with_stray.children[0].evaluated.as_ref().unwrap();
    assert_eq!(a.success, b.success);
    assert_eq!(a.overridden, b.overridden);
    assert!(a.applied_fulfillment.is_none());
    assert!(b.applied_fulfillment.is_none());
    assert_eq!(a.matched_courses.len(), b.matched_courses.len());
    assert_eq!(
        plain.evaluated.as_ref().unwrap().progress,
        with_stray.evaluated.as_ref().unwrap().progress,
    );
}

#[test]
fn repeated_evaluation_is_identical() {
    let make_area = || {
        one_requirement_area(
            HansonExpression::Reference(ReferenceExpression { requirement: "R".to_string() }),
            requirement(
                "R",
                Some(HansonExpression::Course(course_expr("CSCI", 121))),
            ),
        )
    };
    let courses = vec![course("CSCI", 121, 2020, 1), course("MATH", 100, 2019, 2)];
    let overrides = OverrideMap::new();
    let fulfillments = FulfillmentMap::new();

    let first = evaluate_area(&courses, &overrides, &fulfillments, make_area());
    let second = evaluate_area(&courses, &overrides, &fulfillments, make_area());

    assert_eq!(format!("{:?}", first), format!("{:?}", second));
}

#[test]
fn later_override_binding_supersedes_earlier() {
    let mut overrides = OverrideMap::new();
    overrides.insert("p".to_string(), false);
    overrides.insert("p".to_string(), true);
    assert_eq!(overrides.get(&"p".to_string()), Some(true));
    assert_eq!(overrides.get(&"missing".to_string()), None);
}

#[test]
fn nodes_without_a_body_get_no_verdict() {
    let mut parent = requirement("Parent", None);
    parent.children.push(requirement(
        "Child",
        Some(HansonExpression::Course(course_expr("CSCI", 121))),
    ));
    let area = one_requirement_area(
        HansonExpression::BooleanAnd(BooleanAndExpression { values: Vec::new() }),
        parent,
    );
    let courses = vec![course("CSCI", 121, 2020, 1)];
    let overrides = OverrideMap::new();
    let fulfillments = FulfillmentMap::new();

    let result = evaluate_area(&courses, &overrides, &fulfillments, area);

    let parent_result = &result.children[0];
    assert!(parent_result.evaluated.is_none());
    let child_result = &parent_result.children[0];
    assert!(child_result.evaluated.as_ref().unwrap().success);
    // progress is shallow: the parent carries no verdict, so nothing counts
    assert_eq!(result.evaluated.as_ref().unwrap().progress, (0, 1));
}
