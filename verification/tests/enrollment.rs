use gradebook::models::ErrorKind;
use gradebook::store::Gradebook;

fn seeded() -> Gradebook {
    let mut gb = Gradebook::new();
    gb.create_student("Ada".to_string(), "Lovelace".to_string(), None)
        .unwrap();
    gb.create_student("Grace".to_string(), "Hopper".to_string(), None)
        .unwrap();
    gb.create_class("Math".to_string(), None).unwrap();
    gb.create_class("Physics".to_string(), None).unwrap();
    gb
}

#[test]
fn enroll_and_list() {
    let mut gb = seeded();
    let sc = gb.enroll_student(1, 1).unwrap();
    assert_eq!(sc.student_id, 1);
    assert_eq!(sc.class_id, 1);
    let all = gb.get_enrollments();
    assert_eq!(all.len(), 1);
    assert_eq!(all[0], sc);
}

#[test]
fn enroll_requires_existing_student_and_class() {
    let mut gb = seeded();
    assert_eq!(gb.enroll_student(9, 1).unwrap_err().kind, ErrorKind::NotFound);
    assert_eq!(gb.enroll_student(1, 9).unwrap_err().kind, ErrorKind::NotFound);
}

#[test]
fn duplicate_enrollment_not_unique() {
    let mut gb = seeded();
    gb.enroll_student(1, 1).unwrap();
    let e = gb.enroll_student(1, 1).unwrap_err();
    assert_eq!(e.kind, ErrorKind::NotUnique);
    assert_eq!(gb.get_enrollments().len(), 1);
}

#[test]
fn enrollments_listed_in_key_order() {
    let mut gb = seeded();
    gb.enroll_student(2, 2).unwrap();
    gb.enroll_student(1, 2).unwrap();
    gb.enroll_student(2, 1).unwrap();
    gb.enroll_student(1, 1).unwrap();
    let all = gb.get_enrollments();
    let keys: Vec<(i64, i64)> = all.iter().map(|e| (e.student_id, e.class_id)).collect();
    assert_eq!(keys, vec![(1, 1), (1, 2), (2, 1), (2, 2)]);
}

#[test]
fn unenroll_removes_pair() {
    let mut gb = seeded();
    gb.enroll_student(1, 1).unwrap();
    gb.enroll_student(1, 2).unwrap();
    gb.unenroll_student(1, 1).unwrap();
    let all = gb.get_enrollments();
    assert_eq!(all.len(), 1);
    assert_eq!((all[0].student_id, all[0].class_id), (1, 2));
    assert_eq!(gb.unenroll_student(1, 1).unwrap_err().kind, ErrorKind::NotFound);
}

#[test]
fn unenroll_blocked_by_grades() {
    let mut gb = seeded();
    gb.enroll_student(1, 1).unwrap();
    let a = gb
        .create_assignment(1, "Quiz".to_string(), "quiz".to_string(), 100, None)
        .unwrap();
    gb.create_grade(1, a.id, 90).unwrap();
    let e = gb.unenroll_student(1, 1).unwrap_err();
    assert_eq!(e.kind, ErrorKind::HasDependents);
    gb.delete_grade(1, a.id).unwrap();
    gb.unenroll_student(1, 1).unwrap();
}

#[test]
fn delete_student_blocked_by_enrollment() {
    let mut gb = seeded();
    gb.enroll_student(1, 1).unwrap();
    let e = gb.delete_student(1).unwrap_err();
    assert_eq!(e.kind, ErrorKind::HasDependents);
    gb.unenroll_student(1, 1).unwrap();
    gb.delete_student(1).unwrap();
}

#[test]
fn delete_class_blocked_by_dependents() {
    let mut gb = seeded();
    gb.enroll_student(1, 1).unwrap();
    let e = gb.delete_class(1).unwrap_err();
    assert_eq!(e.kind, ErrorKind::HasDependents);
    gb.unenroll_student(1, 1).unwrap();
    let a = gb
        .create_assignment(1, "Quiz".to_string(), "quiz".to_string(), 100, None)
        .unwrap();
    let e = gb.delete_class(1).unwrap_err();
    assert_eq!(e.kind, ErrorKind::HasDependents);
    gb.delete_assignment(a.id).unwrap();
    gb.delete_class(1).unwrap();
}

#[test]
fn delete_assignment_blocked_by_grades() {
    let mut gb = seeded();
    gb.enroll_student(1, 1).unwrap();
    let a = gb
        .create_assignment(1, "Quiz".to_string(), "quiz".to_string(), 100, None)
        .unwrap();
    gb.create_grade(1, a.id, 50).unwrap();
    let e = gb.delete_assignment(a.id).unwrap_err();
    assert_eq!(e.kind, ErrorKind::HasDependents);
    gb.delete_grade(1, a.id).unwrap();
    gb.delete_assignment(a.id).unwrap();
}

#[test]
fn grade_create_requires_assignment_and_enrollment() {
    let mut gb = seeded();
    assert_eq!(gb.create_grade(1, 7, 10).unwrap_err().kind, ErrorKind::NotFound);
    let a = gb
        .create_assignment(1, "Quiz".to_string(), "quiz".to_string(), 100, None)
        .unwrap();
    // student 1 exists but is not enrolled in class 1
    assert_eq!(gb.create_grade(1, a.id, 10).unwrap_err().kind, ErrorKind::NotFound);
    gb.enroll_student(1, 1).unwrap();
    gb.create_grade(1, a.id, 10).unwrap();
}

#[test]
fn duplicate_grade_not_unique_but_update_succeeds() {
    let mut gb = seeded();
    gb.enroll_student(1, 1).unwrap();
    let a = gb
        .create_assignment(1, "Quiz".to_string(), "quiz".to_string(), 100, None)
        .unwrap();
    gb.create_grade(1, a.id, 40).unwrap();
    let e = gb.create_grade(1, a.id, 70).unwrap_err();
    assert_eq!(e.kind, ErrorKind::NotUnique);
    let g = gb.update_grade(1, a.id, 70).unwrap();
    assert_eq!(g.score, 70);
    assert_eq!(gb.get_grade(1, a.id).unwrap().score, 70);
}

#[test]
fn grade_score_must_fit_maximum() {
    let mut gb = seeded();
    gb.enroll_student(1, 1).unwrap();
    let a = gb
        .create_assignment(1, "Quiz".to_string(), "quiz".to_string(), 100, None)
        .unwrap();
    assert_eq!(gb.create_grade(1, a.id, 101).unwrap_err().kind, ErrorKind::InvalidInput);
    gb.create_grade(1, a.id, 100).unwrap();
    assert_eq!(gb.update_grade(1, a.id, 101).unwrap_err().kind, ErrorKind::InvalidInput);
}

#[test]
fn grades_listed_in_key_order() {
    let mut gb = seeded();
    gb.enroll_student(1, 1).unwrap();
    gb.enroll_student(2, 1).unwrap();
    let a1 = gb
        .create_assignment(1, "Quiz".to_string(), "quiz".to_string(), 100, None)
        .unwrap();
    let a2 = gb
        .create_assignment(1, "Test".to_string(), "test".to_string(), 100, None)
        .unwrap();
    gb.create_grade(2, a2.id, 4).unwrap();
    gb.create_grade(1, a2.id, 2).unwrap();
    gb.create_grade(2, a1.id, 3).unwrap();
    gb.create_grade(1, a1.id, 1).unwrap();
    let all = gb.get_all_grades();
    let keys: Vec<(i64, i64)> = all.iter().map(|g| (g.student_id, g.assignment_id)).collect();
    assert_eq!(keys, vec![(1, a1.id), (1, a2.id), (2, a1.id), (2, a2.id)]);
}

#[test]
fn update_assignment_guards_dependent_grades() {
    let mut gb = seeded();
    gb.enroll_student(1, 1).unwrap();
    let a = gb
        .create_assignment(1, "Quiz".to_string(), "quiz".to_string(), 100, None)
        .unwrap();
    gb.create_grade(1, a.id, 90).unwrap();
    // moving a graded assignment to another class is blocked
    let e = gb
        .update_assignment(a.id, 2, "Quiz".to_string(), "quiz".to_string(), 100, None)
        .unwrap_err();
    assert_eq!(e.kind, ErrorKind::HasDependents);
    // lowering the maximum below a recorded score is blocked
    let e = gb
        .update_assignment(a.id, 1, "Quiz".to_string(), "quiz".to_string(), 80, None)
        .unwrap_err();
    assert_eq!(e.kind, ErrorKind::InvalidInput);
    // raising it is fine
    let a2 = gb
        .update_assignment(a.id, 1, "Quiz".to_string(), "quiz".to_string(), 200, None)
        .unwrap();
    assert_eq!(a2.maximum_score, 200);
}
