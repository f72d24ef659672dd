use examine::course::compare_courses;
use examine::course::compare_departments;
use examine::course::Course;
use examine::expression::CourseExpression;

fn course_csci_101() -> Course {
    Course {
        clbid: "1".to_string(),
        credits: 100,
        crsid: "1".to_string(),
        department: vec!["CSCI".to_string()],
        groupid: Some("1".to_string()),
        grouptype: Some("R".to_string()),
        level: 100,
        number: 101,
        section: Some("A".to_string()),
        semester: 1,
        year: 2000,
    }
}

#[test]
fn course_courses_vs_course_exprs() {
    let course = course_csci_101();

    let yes_expr = CourseExpression {
        department: vec!["CSCI".to_string()],
        level: None,
        number: 101,
        semester: None,
        year: None,
    };

    assert!(compare_courses(&yes_expr, &course));
}

#[test]
fn course_courses_vs_course_exprs_diff_depts() {
    let course = course_csci_101();

    let no_expr = CourseExpression {
        department: vec!["ASIAN".to_string()],
        level: None,
        number: 101,
        semester: None,
        year: None,
    };

    assert!(!compare_courses(&no_expr, &course));
}

#[test]
fn expressions_courses_vs_course_exprs() {
    let course = course_csci_101();

    let yes_expr = CourseExpression {
        department: vec!["CSCI".to_string()],
        level: None,
        number: 101,
        semester: None,
        year: None,
    };

    assert!(compare_courses(&yes_expr, &course));
}

#[test]
fn expressions_courses_vs_course_exprs_diff_depts() {
    let course = course_csci_101();

    let no_expr = CourseExpression {
        department: vec!["ASIAN".to_string()],
        level: None,
        number: 101,
        semester: None,
        year: None,
    };

    assert!(!compare_courses(&no_expr, &course));
}

#[test]
fn departments_compare_as_sets() {
    let a = vec!["CSCI".to_string(), "MATH".to_string()];
    let b = vec!["MATH".to_string(), "CSCI".to_string(), "MATH".to_string()];
    let c = vec!["MATH".to_string()];
    assert!(compare_departments(&a, &b));
    assert!(compare_departments(&b, &a));
    assert!(!compare_departments(&a, &c));
    assert!(!compare_departments(&c, &a));
}

#[test]
fn year_and_semester_pins_match_if_equal() {
    let course = course_csci_101();

    let pinned_right = CourseExpression {
        department: vec!["CSCI".to_string()],
        level: None,
        number: 101,
        semester: Some(1),
        year: Some(2000),
    };
    assert!(compare_courses(&pinned_right, &course));

    let pinned_wrong_year = CourseExpression {
        department: vec!["CSCI".to_string()],
        level: None,
        number: 101,
        semester: None,
        year: Some(1999),
    };
    assert!(!compare_courses(&pinned_wrong_year, &course));

    let pinned_wrong_semester = CourseExpression {
        department: vec!["CSCI".to_string()],
        level: None,
        number: 101,
        semester: Some(2),
        year: None,
    };
    assert!(!compare_courses(&pinned_wrong_semester, &course));
}
