use gradebook::models::ErrorKind;
use gradebook::store::Gradebook;

#[test]
fn create_student_assigns_ascending_ids() {
    let mut gb = Gradebook::new();
    let a = gb
        .create_student("Ada".to_string(), "Lovelace".to_string(), None)
        .unwrap();
    let b = gb
        .create_student(
            "Grace".to_string(),
            "Hopper".to_string(),
            Some("grace@example.com".to_string()),
        )
        .unwrap();
    assert_eq!(a.id, 1);
    assert_eq!(b.id, 2);
    assert_eq!(a.first_name, "Ada");
    assert_eq!(a.last_name, "Lovelace");
    assert_eq!(a.email, None);
    assert_eq!(b.email, Some("grace@example.com".to_string()));
}

#[test]
fn create_student_rejects_empty_names() {
    let mut gb = Gradebook::new();
    let e = gb
        .create_student("".to_string(), "Lovelace".to_string(), None)
        .unwrap_err();
    assert_eq!(e.kind, ErrorKind::InvalidInput);
    let e = gb
        .create_student("Ada".to_string(), "".to_string(), None)
        .unwrap_err();
    assert_eq!(e.kind, ErrorKind::InvalidInput);
    assert!(gb.get_all_students().is_empty());
}

#[test]
fn get_student_not_found() {
    let gb = Gradebook::new();
    let e = gb.get_student(1).unwrap_err();
    assert_eq!(e.kind, ErrorKind::NotFound);
}

#[test]
fn get_all_students_ordered_by_id() {
    let mut gb = Gradebook::new();
    for name in ["Ada", "Grace", "Edsger"] {
        gb.create_student(name.to_string(), "X".to_string(), None)
            .unwrap();
    }
    let all = gb.get_all_students();
    assert_eq!(all.len(), 3);
    assert_eq!(all[0].id, 1);
    assert_eq!(all[1].id, 2);
    assert_eq!(all[2].id, 3);
    assert_eq!(all[0].first_name, "Ada");
    assert_eq!(all[2].first_name, "Edsger");
}

#[test]
fn update_student_rewrites_fields() {
    let mut gb = Gradebook::new();
    let s = gb
        .create_student("Ada".to_string(), "Lovelace".to_string(), None)
        .unwrap();
    let s2 = gb
        .update_student(
            s.id,
            "Augusta".to_string(),
            "King".to_string(),
            Some("ada@example.com".to_string()),
        )
        .unwrap();
    assert_eq!(s2.id, s.id);
    assert_eq!(s2.first_name, "Augusta");
    let got = gb.get_student(s.id).unwrap();
    assert_eq!(got, s2);
}

#[test]
fn update_student_errors() {
    let mut gb = Gradebook::new();
    let e = gb
        .update_student(7, "Ada".to_string(), "Lovelace".to_string(), None)
        .unwrap_err();
    assert_eq!(e.kind, ErrorKind::NotFound);
    gb.create_student("Ada".to_string(), "Lovelace".to_string(), None)
        .unwrap();
    let e = gb
        .update_student(1, "".to_string(), "Lovelace".to_string(), None)
        .unwrap_err();
    assert_eq!(e.kind, ErrorKind::InvalidInput);
}

#[test]
fn delete_student_basic_and_not_found() {
    let mut gb = Gradebook::new();
    let s = gb
        .create_student("Ada".to_string(), "Lovelace".to_string(), None)
        .unwrap();
    gb.delete_student(s.id).unwrap();
    assert!(gb.get_all_students().is_empty());
    let e = gb.delete_student(s.id).unwrap_err();
    assert_eq!(e.kind, ErrorKind::NotFound);
}

#[test]
fn class_crud_round_trip() {
    let mut gb = Gradebook::new();
    let c = gb
        .create_class("Math".to_string(), Some("algebra".to_string()))
        .unwrap();
    assert_eq!(c.id, 1);
    let got = gb.get_class(c.id).unwrap();
    assert_eq!(got.class_name, "Math");
    let c2 = gb.update_class(c.id, "Maths".to_string(), None).unwrap();
    assert_eq!(c2.description, None);
    assert_eq!(gb.get_class(c.id).unwrap().class_name, "Maths");
    gb.delete_class(c.id).unwrap();
    assert!(gb.get_all_classes().is_empty());
    assert_eq!(gb.get_class(c.id).unwrap_err().kind, ErrorKind::NotFound);
}

#[test]
fn create_class_rejects_empty_name() {
    let mut gb = Gradebook::new();
    let e = gb.create_class("".to_string(), None).unwrap_err();
    assert_eq!(e.kind, ErrorKind::InvalidInput);
}

#[test]
fn assignment_crud_and_validation() {
    let mut gb = Gradebook::new();
    let c = gb.create_class("Math".to_string(), None).unwrap();
    let e = gb
        .create_assignment(c.id, "".to_string(), "homework".to_string(), 100, None)
        .unwrap_err();
    assert_eq!(e.kind, ErrorKind::InvalidInput);
    let e = gb
        .create_assignment(c.id, "Quiz".to_string(), "quiz".to_string(), 0, None)
        .unwrap_err();
    assert_eq!(e.kind, ErrorKind::InvalidInput);
    let e = gb
        .create_assignment(99, "Quiz".to_string(), "quiz".to_string(), 100, None)
        .unwrap_err();
    assert_eq!(e.kind, ErrorKind::NotFound);
    let a = gb
        .create_assignment(c.id, "Quiz".to_string(), "quiz".to_string(), 100, Some(1700000000))
        .unwrap();
    assert_eq!(a.id, 1);
    assert_eq!(a.due_date, Some(1700000000));
    let got = gb.get_assignment(a.id).unwrap();
    assert_eq!(got, a);
    let a2 = gb
        .update_assignment(a.id, c.id, "Quiz 1".to_string(), "quiz".to_string(), 80, None)
        .unwrap();
    assert_eq!(a2.maximum_score, 80);
    assert_eq!(a2.due_date, None);
    gb.delete_assignment(a.id).unwrap();
    assert!(gb.get_all_assignments().is_empty());
}
