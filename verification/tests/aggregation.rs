use gradebook::grading::letter_for;
use gradebook::models::{ErrorKind, Letter};
use gradebook::store::Gradebook;

fn class_with_two_assignments() -> Gradebook {
    let mut gb = Gradebook::new();
    gb.create_student("Xavier".to_string(), "Xu".to_string(), None)
        .unwrap();
    gb.create_student("Yolanda".to_string(), "Young".to_string(), None)
        .unwrap();
    gb.create_class("Chemistry".to_string(), None).unwrap();
    gb.create_assignment(1, "Assignment A".to_string(), "homework".to_string(), 100, None)
        .unwrap();
    gb.create_assignment(1, "Assignment B".to_string(), "homework".to_string(), 50, None)
        .unwrap();
    gb.enroll_student(1, 1).unwrap();
    gb.enroll_student(2, 1).unwrap();
    gb
}

#[test]
fn weighted_scenario_both_assignments() {
    // Student X: 90 of 100 on A and 40 of 50 on B
    // -> 100 x (90 + 40) / (100 + 50) = 86.67 percent, letter B.
    let mut gb = class_with_two_assignments();
    gb.create_grade(1, 1, 90).unwrap();
    gb.create_grade(1, 2, 40).unwrap();
    let og = gb.overall_grade(1, 1).unwrap().unwrap();
    assert_eq!(og.percentage, 8667);
    assert_eq!(og.letter_grade, Letter::B);
    assert_eq!(og.letter_grade.text(), "B");
}

#[test]
fn ungraded_assignment_excluded_from_both_sums() {
    // Student Y scores only 45 of 100 on A; B stays ungraded and must not
    // count as zero: 100 x 45 / 100 = 45 percent, letter F.
    let mut gb = class_with_two_assignments();
    gb.create_grade(2, 1, 45).unwrap();
    let og = gb.overall_grade(2, 1).unwrap().unwrap();
    assert_eq!(og.percentage, 4500);
    assert_eq!(og.letter_grade, Letter::F);
    // Adding one more ungraded assignment moves nothing.
    gb.create_assignment(1, "Assignment C".to_string(), "homework".to_string(), 500, None)
        .unwrap();
    let og2 = gb.overall_grade(2, 1).unwrap().unwrap();
    assert_eq!(og2, og);
}

#[test]
fn no_enrollment_is_not_found() {
    let mut gb = class_with_two_assignments();
    gb.create_student("Zoe".to_string(), "Zhang".to_string(), None)
        .unwrap();
    let e = gb.overall_grade(3, 1).unwrap_err();
    assert_eq!(e.kind, ErrorKind::NotFound);
}

#[test]
fn enrolled_without_scores_is_undefined_not_zero() {
    let gb = class_with_two_assignments();
    assert_eq!(gb.overall_grade(1, 1).unwrap(), None);
}

#[test]
fn deleting_only_score_reverts_to_undefined() {
    let mut gb = class_with_two_assignments();
    gb.create_grade(1, 1, 90).unwrap();
    assert!(gb.overall_grade(1, 1).unwrap().is_some());
    gb.delete_grade(1, 1).unwrap();
    assert_eq!(gb.overall_grade(1, 1).unwrap(), None);
}

#[test]
fn recomputing_twice_is_identical() {
    let mut gb = class_with_two_assignments();
    gb.create_grade(1, 1, 77).unwrap();
    gb.create_grade(1, 2, 31).unwrap();
    let first = gb.overall_grade(1, 1).unwrap();
    let second = gb.overall_grade(1, 1).unwrap();
    assert_eq!(first, second);
    let list1 = gb.get_overall_grades();
    let list2 = gb.get_overall_grades();
    assert_eq!(list1, list2);
}

#[test]
fn mutation_moves_the_aggregate() {
    let mut gb = class_with_two_assignments();
    gb.create_grade(1, 1, 50).unwrap();
    assert_eq!(gb.overall_grade(1, 1).unwrap().unwrap().percentage, 5000);
    gb.update_grade(1, 1, 80).unwrap();
    assert_eq!(gb.overall_grade(1, 1).unwrap().unwrap().percentage, 8000);
    // Changing the assignment's maximum is a recomputation trigger too.
    gb.update_assignment(1, 1, "Assignment A".to_string(), "homework".to_string(), 200, None)
        .unwrap();
    assert_eq!(gb.overall_grade(1, 1).unwrap().unwrap().percentage, 4000);
}

#[test]
fn rounding_is_half_away_from_zero() {
    let mut gb = Gradebook::new();
    gb.create_student("Ada".to_string(), "Lovelace".to_string(), None)
        .unwrap();
    gb.create_class("Math".to_string(), None).unwrap();
    gb.create_assignment(1, "Quiz".to_string(), "quiz".to_string(), 3, None)
        .unwrap();
    gb.enroll_student(1, 1).unwrap();
    gb.create_grade(1, 1, 1).unwrap();
    // 1/3 = 33.333... percent -> 3333 hundredths.
    assert_eq!(gb.overall_grade(1, 1).unwrap().unwrap().percentage, 3333);
    gb.update_grade(1, 1, 2).unwrap();
    // 2/3 = 66.666... percent -> rounds up to 6667.
    assert_eq!(gb.overall_grade(1, 1).unwrap().unwrap().percentage, 6667);
}

#[test]
fn letter_thresholds_are_sharp() {
    assert_eq!(letter_for(10000), Letter::A);
    assert_eq!(letter_for(9000), Letter::A);
    assert_eq!(letter_for(8999), Letter::B);
    assert_eq!(letter_for(8000), Letter::B);
    assert_eq!(letter_for(7999), Letter::C);
    assert_eq!(letter_for(7000), Letter::C);
    assert_eq!(letter_for(6999), Letter::D);
    assert_eq!(letter_for(6000), Letter::D);
    assert_eq!(letter_for(5999), Letter::F);
    assert_eq!(letter_for(0), Letter::F);
}

#[test]
fn letter_text_covers_every_letter() {
    assert_eq!(Letter::A.text(), "A");
    assert_eq!(Letter::B.text(), "B");
    assert_eq!(Letter::C.text(), "C");
    assert_eq!(Letter::D.text(), "D");
    assert_eq!(Letter::F.text(), "F");
}

#[test]
fn full_marks_are_one_hundred_percent() {
    let mut gb = class_with_two_assignments();
    gb.create_grade(1, 1, 100).unwrap();
    gb.create_grade(1, 2, 50).unwrap();
    let og = gb.overall_grade(1, 1).unwrap().unwrap();
    assert_eq!(og.percentage, 10000);
    assert_eq!(og.letter_grade, Letter::A);
}

#[test]
fn overall_grades_lists_defined_pairs_in_order() {
    let mut gb = class_with_two_assignments();
    // Student 2 graded, student 1 not: only one defined row.
    gb.create_grade(2, 1, 60).unwrap();
    let rows = gb.get_overall_grades();
    assert_eq!(rows.len(), 1);
    assert_eq!(rows[0].student_id, 2);
    assert_eq!(rows[0].class_id, 1);
    assert_eq!(rows[0].percentage, 6000);
    assert_eq!(rows[0].letter_grade, Letter::D);
    // Grade student 1 too: rows come in (student, class) order.
    gb.create_grade(1, 1, 95).unwrap();
    let rows = gb.get_overall_grades();
    assert_eq!(rows.len(), 2);
    assert_eq!(rows[0].student_id, 1);
    assert_eq!(rows[1].student_id, 2);
    assert_eq!(rows[0].letter_grade, Letter::A);
}

#[test]
fn scores_in_other_classes_do_not_leak() {
    let mut gb = class_with_two_assignments();
    gb.create_class("Biology".to_string(), None).unwrap();
    gb.create_assignment(2, "Essay".to_string(), "essay".to_string(), 10, None)
        .unwrap();
    gb.enroll_student(1, 2).unwrap();
    gb.create_grade(1, 3, 1).unwrap();
    gb.create_grade(1, 1, 90).unwrap();
    // Chemistry sees only the chemistry grade.
    assert_eq!(gb.overall_grade(1, 1).unwrap().unwrap().percentage, 9000);
    // Biology sees only the essay: 1 of 10.
    assert_eq!(gb.overall_grade(1, 2).unwrap().unwrap().percentage, 1000);
}

#[test]
fn fixed_point_scores_carry_fractions() {
    // Score units are hundredths of a point: 8.75 of 10.00.
    let mut gb = Gradebook::new();
    gb.create_student("Ada".to_string(), "Lovelace".to_string(), None)
        .unwrap();
    gb.create_class("Math".to_string(), None).unwrap();
    gb.create_assignment(1, "Quiz".to_string(), "quiz".to_string(), 1000, None)
        .unwrap();
    gb.enroll_student(1, 1).unwrap();
    gb.create_grade(1, 1, 875).unwrap();
    assert_eq!(gb.overall_grade(1, 1).unwrap().unwrap().percentage, 8750);
}
