//! The record store: the five entity tables with their uniqueness and
//! referential-integrity invariants, the operations on them, and the read
//! paths for the derived overall grades.
//!
//! Deletion policy, applied uniformly: deleting a record that other records
//! reference is rejected with `HasDependents`; nothing cascades.
//!
//! Snapshots (`get_all_*`, `get_enrollments`) come back ordered by identity
//! ascending — surrogate identity for students, classes and assignments,
//! the composite natural key for enrollments and grades — which the
//! invariants below keep as the physical order of each table.

use vstd::prelude::*;

use crate::grading::{find_assignment, grade_counts, max_sum, score_sum};
use crate::models::{Assignment, Class, Error, ErrorKind, Grade, OverallGrade, Student, StudentClass};

verus! {

/// Whether some student in `students` has identity `id`.
pub open spec fn has_student(students: Seq<Student>, id: i64) -> bool {
    exists|i: int| 0 <= i < students.len() && #[trigger] students[i].id == id
}

/// Whether some class in `classes` has identity `id`.
pub open spec fn has_class(classes: Seq<Class>, id: i64) -> bool {
    exists|i: int| 0 <= i < classes.len() && #[trigger] classes[i].id == id
}

/// Whether the pair (student, class) is enrolled.
pub open spec fn has_enrollment(enrollments: Seq<StudentClass>, student_id: i64, class_id: i64) -> bool {
    exists|i: int|
        0 <= i < enrollments.len() && #[trigger] enrollments[i] == (StudentClass {
            student_id,
            class_id,
        })
}

/// Whether some assignment in `assignments` has identity `id`.
pub open spec fn has_assignment(assignments: Seq<Assignment>, id: i64) -> bool {
    exists|i: int| 0 <= i < assignments.len() && #[trigger] assignments[i].id == id
}

/// Whether some grade in `grades` references the assignment with identity
/// `id`.
pub open spec fn assignment_has_grades(grades: Seq<Grade>, id: i64) -> bool {
    exists|i: int| 0 <= i < grades.len() && #[trigger] grades[i].assignment_id == id
}

/// Whether the student has a recorded grade on the assignment.
pub open spec fn has_grade(grades: Seq<Grade>, student_id: i64, assignment_id: i64) -> bool {
    exists|i: int|
        0 <= i < grades.len() && #[trigger] grades[i].student_id == student_id
            && grades[i].assignment_id == assignment_id
}

/// Strict ordering of enrollment keys: by student, then by class.
pub open spec fn enrollment_key_lt(a: StudentClass, b: StudentClass) -> bool {
    a.student_id < b.student_id || (a.student_id == b.student_id && a.class_id < b.class_id)
}

/// `post` is `pre` with `x` inserted at some position.
pub open spec fn inserted_enrollment(
    pre: Seq<StudentClass>,
    post: Seq<StudentClass>,
    x: StudentClass,
) -> bool {
    exists|i: int| 0 <= i <= pre.len() && post == #[trigger] pre.insert(i, x)
}

/// `post` is `pre` with `x` inserted at some position.
pub open spec fn inserted_grade(pre: Seq<Grade>, post: Seq<Grade>, x: Grade) -> bool {
    exists|i: int| 0 <= i <= pre.len() && post == #[trigger] pre.insert(i, x)
}

/// Strict ordering of grade keys: by student, then by assignment.
pub open spec fn grade_key_lt(a: Grade, b: Grade) -> bool {
    a.student_id < b.student_id || (a.student_id == b.student_id && a.assignment_id
        < b.assignment_id)
}

/// The post-state agrees with the pre-state on every table but the
/// students table.
pub open spec fn only_students_changed(pre: Gradebook, post: Gradebook) -> bool {
    &&& post.classes@ == pre.classes@
    &&& post.enrollments@ == pre.enrollments@
    &&& post.assignments@ == pre.assignments@
    &&& post.grades@ == pre.grades@
    &&& post.next_class_id == pre.next_class_id
    &&& post.next_assignment_id == pre.next_assignment_id
}

/// The post-state agrees with the pre-state on every table but the classes
/// table.
pub open spec fn only_classes_changed(pre: Gradebook, post: Gradebook) -> bool {
    &&& post.students@ == pre.students@
    &&& post.enrollments@ == pre.enrollments@
    &&& post.assignments@ == pre.assignments@
    &&& post.grades@ == pre.grades@
    &&& post.next_student_id == pre.next_student_id
    &&& post.next_assignment_id == pre.next_assignment_id
}

/// The post-state agrees with the pre-state on every table but the
/// enrollments table.
pub open spec fn only_enrollments_changed(pre: Gradebook, post: Gradebook) -> bool {
    &&& post.students@ == pre.students@
    &&& post.classes@ == pre.classes@
    &&& post.assignments@ == pre.assignments@
    &&& post.grades@ == pre.grades@
    &&& post.next_student_id == pre.next_student_id
    &&& post.next_class_id == pre.next_class_id
    &&& post.next_assignment_id == pre.next_assignment_id
}

/// The post-state agrees with the pre-state on every table but the
/// assignments table.
pub open spec fn only_assignments_changed(pre: Gradebook, post: Gradebook) -> bool {
    &&& post.students@ == pre.students@
    &&& post.classes@ == pre.classes@
    &&& post.enrollments@ == pre.enrollments@
    &&& post.grades@ == pre.grades@
    &&& post.next_student_id == pre.next_student_id
    &&& post.next_class_id == pre.next_class_id
}

/// The post-state agrees with the pre-state on every table but the grades
/// table.
pub open spec fn only_grades_changed(pre: Gradebook, post: Gradebook) -> bool {
    &&& post.students@ == pre.students@
    &&& post.classes@ == pre.classes@
    &&& post.enrollments@ == pre.enrollments@
    &&& post.assignments@ == pre.assignments@
    &&& post.next_student_id == pre.next_student_id
    &&& post.next_class_id == pre.next_class_id
    &&& post.next_assignment_id == pre.next_assignment_id
}

/// Appending a student keeps every present identity present.
proof fn lemma_has_student_push(s: Seq<Student>, x: Student, id: i64)
    requires
        has_student(s, id),
    ensures
        has_student(s.push(x), id),
{
    let w = choose|i: int| 0 <= i < s.len() && #[trigger] s[i].id == id;
    assert(s.push(x)[w].id == id);
}

/// Replacing a student by one with the same identity keeps every present
/// identity present.
proof fn lemma_has_student_update(s: Seq<Student>, k: int, x: Student, id: i64)
    requires
        has_student(s, id),
        0 <= k < s.len(),
        x.id == s[k].id,
    ensures
        has_student(s.update(k, x), id),
{
    let w = choose|i: int| 0 <= i < s.len() && #[trigger] s[i].id == id;
    if w == k {
        assert(s.update(k, x)[w].id == id);
    } else {
        assert(s.update(k, x)[w].id == id);
    }
}

/// Removing a student of another identity keeps a present identity present.
proof fn lemma_has_student_remove(s: Seq<Student>, k: int, id: i64)
    requires
        has_student(s, id),
        0 <= k < s.len(),
        s[k].id != id,
    ensures
        has_student(s.remove(k), id),
{
    let w = choose|i: int| 0 <= i < s.len() && #[trigger] s[i].id == id;
    if w < k {
        assert(s.remove(k)[w].id == id);
    } else {
        assert(s.remove(k)[w - 1].id == id);
    }
}

/// Appending a class keeps every present identity present.
proof fn lemma_has_class_push(s: Seq<Class>, x: Class, id: i64)
    requires
        has_class(s, id),
    ensures
        has_class(s.push(x), id),
{
    let w = choose|i: int| 0 <= i < s.len() && #[trigger] s[i].id == id;
    assert(s.push(x)[w].id == id);
}

/// Replacing a class by one with the same identity keeps every present
/// identity present.
proof fn lemma_has_class_update(s: Seq<Class>, k: int, x: Class, id: i64)
    requires
        has_class(s, id),
        0 <= k < s.len(),
        x.id == s[k].id,
    ensures
        has_class(s.update(k, x), id),
{
    let w = choose|i: int| 0 <= i < s.len() && #[trigger] s[i].id == id;
    assert(s.update(k, x)[w].id == id);
}

/// Removing a class of another identity keeps a present identity present.
proof fn lemma_has_class_remove(s: Seq<Class>, k: int, id: i64)
    requires
        has_class(s, id),
        0 <= k < s.len(),
        s[k].id != id,
    ensures
        has_class(s.remove(k), id),
{
    let w = choose|i: int| 0 <= i < s.len() && #[trigger] s[i].id == id;
    if w < k {
        assert(s.remove(k)[w].id == id);
    } else {
        assert(s.remove(k)[w - 1].id == id);
    }
}

/// Inserting an enrollment keeps every present pair present.
proof fn lemma_has_enrollment_insert(
    e: Seq<StudentClass>,
    k: int,
    x: StudentClass,
    student_id: i64,
    class_id: i64,
)
    requires
        has_enrollment(e, student_id, class_id),
        0 <= k <= e.len(),
    ensures
        has_enrollment(e.insert(k, x), student_id, class_id),
{
    let pair = StudentClass { student_id, class_id };
    let w = choose|i: int| 0 <= i < e.len() && #[trigger] e[i] == pair;
    e.insert_ensures(k, x);
    if w < k {
        assert(e.insert(k, x)[w] == pair);
    } else {
        assert(e.insert(k, x)[w + 1] == pair);
    }
}

/// Removing a different pair keeps a present pair present.
proof fn lemma_has_enrollment_remove(e: Seq<StudentClass>, k: int, student_id: i64, class_id: i64)
    requires
        has_enrollment(e, student_id, class_id),
        0 <= k < e.len(),
        e[k] != (StudentClass { student_id, class_id }),
    ensures
        has_enrollment(e.remove(k), student_id, class_id),
{
    let pair = StudentClass { student_id, class_id };
    let w = choose|i: int| 0 <= i < e.len() && #[trigger] e[i] == pair;
    if w < k {
        assert(e.remove(k)[w] == pair);
    } else {
        assert(e.remove(k)[w - 1] == pair);
    }
}

/// Copies a record's optional text field.
fn copy_opt_string(s: &Option<String>) -> (r: Option<String>)
    ensures
        r == *s,
{
    match s {
        Option::Some(v) => Option::Some(v.clone()),
        Option::None => Option::None,
    }
}

/// Copies a student record, field for field.
fn copy_student(s: &Student) -> (r: Student)
    ensures
        r == *s,
{
    Student {
        id: s.id,
        first_name: s.first_name.clone(),
        last_name: s.last_name.clone(),
        email: copy_opt_string(&s.email),
    }
}

/// Copies a class record, field for field.
fn copy_class(c: &Class) -> (r: Class)
    ensures
        r == *c,
{
    Class {
        id: c.id,
        class_name: c.class_name.clone(),
        description: copy_opt_string(&c.description),
    }
}

/// Copies an assignment record, field for field.
fn copy_assignment(a: &Assignment) -> (r: Assignment)
    ensures
        r == *a,
{
    Assignment {
        id: a.id,
        class_id: a.class_id,
        assignment_name: a.assignment_name.clone(),
        assignment_type: a.assignment_type.clone(),
        maximum_score: a.maximum_score,
        due_date: a.due_date,
    }
}

/// The gradebook: the five tables and the next fresh surrogate identity of
/// each surrogate-keyed table.
pub struct Gradebook {
    pub students: Vec<Student>,
    pub classes: Vec<Class>,
    pub enrollments: Vec<StudentClass>,
    pub assignments: Vec<Assignment>,
    pub grades: Vec<Grade>,
    pub next_student_id: i64,
    pub next_class_id: i64,
    pub next_assignment_id: i64,
}

impl Gradebook {
    /// The students table is strictly ordered by identity, identities are
    /// below the next fresh one, and names are non-empty.
    pub open spec fn students_ok(self) -> bool {
        let s = self.students@;
        &&& forall|i: int, j: int|
            #![trigger s[i].id, s[j].id]
            0 <= i < j < s.len() ==> s[i].id < s[j].id
        &&& forall|i: int| 0 <= i < s.len() ==> 1 <= #[trigger] s[i].id < self.next_student_id
        &&& forall|i: int|
            0 <= i < s.len() ==> (#[trigger] s[i].first_name)@.len() > 0 && s[i].last_name@.len()
                > 0
    }

    /// The classes table is strictly ordered by identity, identities are
    /// below the next fresh one, and names are non-empty.
    pub open spec fn classes_ok(self) -> bool {
        let c = self.classes@;
        &&& forall|i: int, j: int|
            #![trigger c[i].id, c[j].id]
            0 <= i < j < c.len() ==> c[i].id < c[j].id
        &&& forall|i: int| 0 <= i < c.len() ==> 1 <= #[trigger] c[i].id < self.next_class_id
        &&& forall|i: int| 0 <= i < c.len() ==> (#[trigger] c[i].class_name)@.len() > 0
    }

    /// The enrollments table is strictly ordered by its composite key —
    /// which makes the pairs unique — and both sides of each pair exist.
    pub open spec fn enrollments_ok(self) -> bool {
        let e = self.enrollments@;
        &&& forall|i: int, j: int|
            #![trigger e[i], e[j]]
            0 <= i < j < e.len() ==> enrollment_key_lt(e[i], e[j])
        &&& forall|i: int|
            0 <= i < e.len() ==> has_student(self.students@, (#[trigger] e[i]).student_id)
                && has_class(self.classes@, e[i].class_id)
    }

    /// The assignments table is strictly ordered by identity, identities
    /// are below the next fresh one, each assignment's class exists, its
    /// name is non-empty and its maximum score is positive.
    pub open spec fn assignments_ok(self) -> bool {
        let a = self.assignments@;
        &&& forall|i: int, j: int|
            #![trigger a[i].id, a[j].id]
            0 <= i < j < a.len() ==> a[i].id < a[j].id
        &&& forall|i: int| 0 <= i < a.len() ==> 1 <= #[trigger] a[i].id < self.next_assignment_id
        &&& forall|i: int|
            0 <= i < a.len() ==> has_class(self.classes@, (#[trigger] a[i]).class_id)
                && a[i].assignment_name@.len() > 0 && a[i].maximum_score >= 1
    }

    /// The grades table is strictly ordered by its composite key — which
    /// makes the pairs unique — and each grade's assignment exists, its
    /// score is within the assignment's maximum, and its student is
    /// enrolled in the assignment's class.
    pub open spec fn grades_ok(self) -> bool {
        let g = self.grades@;
        &&& forall|i: int, j: int|
            #![trigger g[i], g[j]]
            0 <= i < j < g.len() ==> grade_key_lt(g[i], g[j])
        &&& forall|i: int|
            0 <= i < g.len() ==> match find_assignment(
                self.assignments@,
                (#[trigger] g[i]).assignment_id,
            ) {
                Some(a) => g[i].score <= a.maximum_score && has_enrollment(
                    self.enrollments@,
                    g[i].student_id,
                    a.class_id,
                ),
                None => false,
            }
    }

    /// Well-formedness of the whole store: every operation requires it and
    /// keeps it.
    pub open spec fn wf(self) -> bool {
        &&& self.students_ok()
        &&& self.classes_ok()
        &&& self.enrollments_ok()
        &&& self.assignments_ok()
        &&& self.grades_ok()
        &&& self.next_student_id >= 1
        &&& self.next_class_id >= 1
        &&& self.next_assignment_id >= 1
    }

    /// An empty gradebook.
    pub fn new() -> (gb: Gradebook)
        ensures
            gb.wf(),
            gb.students@.len() == 0,
            gb.classes@.len() == 0,
            gb.enrollments@.len() == 0,
            gb.assignments@.len() == 0,
            gb.grades@.len() == 0,
            gb.next_student_id == 1,
            gb.next_class_id == 1,
            gb.next_assignment_id == 1,
    {
        Gradebook {
            students: Vec::new(),
            classes: Vec::new(),
            enrollments: Vec::new(),
            assignments: Vec::new(),
            grades: Vec::new(),
            next_student_id: 1,
            next_class_id: 1,
            next_assignment_id: 1,
        }
    }

    /// Creates a student with a fresh identity.  Both name parts are
    /// required; an empty one is `InvalidInput`.
    pub fn create_student(
        &mut self,
        first_name: String,
        last_name: String,
        email: Option<String>,
    ) -> (r: Result<Student, Error>)
        requires
            old(self).wf(),
            old(self).next_student_id < i64::MAX,
        ensures
            final(self).wf(),
            match r {
                Ok(s) => {
                    &&& first_name@.len() > 0
                    &&& last_name@.len() > 0
                    &&& s == (Student {
                        id: old(self).next_student_id,
                        first_name: first_name,
                        last_name: last_name,
                        email: email,
                    })
                    &&& final(self).students@ == old(self).students@.push(s)
                    &&& final(self).next_student_id == old(self).next_student_id + 1
                    &&& only_students_changed(*old(self), *final(self))
                },
                Err(e) => {
                    &&& e.kind == ErrorKind::InvalidInput
                    &&& first_name@.len() == 0 || last_name@.len() == 0
                    &&& *final(self) == *old(self)
                },
            },
    {
        if first_name.as_str().is_empty() || last_name.as_str().is_empty() {
            return Err(
                Error::new(ErrorKind::InvalidInput, "a student needs a first and a last name"),
            );
        }
        let id = self.next_student_id;
        let stored = Student { id, first_name, last_name, email };
        let returned = copy_student(&stored);
        let ghost stored0 = stored;
        let ghost pre = *self;
        self.students.push(stored);
        self.next_student_id = id + 1;
        proof {
            let s1 = pre.students@;
            let s2 = self.students@;
            assert forall|i: int, j: int|
                #![trigger s2[i].id, s2[j].id]
                0 <= i < j < s2.len() implies s2[i].id < s2[j].id by {
                if j < s2.len() - 1 {
                } else {
                    assert(s2[i] == s1[i]);
                }
            }
            assert forall|i: int|
                0 <= i < self.enrollments@.len() implies has_student(
                    self.students@,
                    (#[trigger] self.enrollments@[i]).student_id,
                ) && has_class(self.classes@, self.enrollments@[i].class_id) by {
                lemma_has_student_push(s1, stored0, self.enrollments@[i].student_id);
            }
        }
        Ok(returned)
    }

    /// Reads the student with the given identity; `NotFound` if absent.
    #[verifier::loop_isolation(false)]
    pub fn get_student(&self, id: i64) -> (r: Result<Student, Error>)
        ensures
            match r {
                Ok(s) => s.id == id && exists|i: int|
                    0 <= i < self.students@.len() && #[trigger] self.students@[i] == s,
                Err(e) => e.kind == ErrorKind::NotFound && !has_student(self.students@, id),
            },
    {
        let n = self.students.len();
        let mut i: usize = 0;
        while i < n
            invariant
                i <= n,
                n == self.students@.len(),
                forall|j: int| 0 <= j < i ==> (#[trigger] self.students@[j]).id != id,
            decreases n - i,
        {
            if self.students[i].id == id {
                return Ok(copy_student(&self.students[i]));
            }
            i = i + 1;
        }
        Err(Error::new(ErrorKind::NotFound, "no student with that identity"))
    }

    /// A snapshot of all students, ordered by identity ascending.
    #[verifier::loop_isolation(false)]
    pub fn get_all_students(&self) -> (r: Vec<Student>)
        ensures
            r@ == self.students@,
    {
        let mut out: Vec<Student> = Vec::new();
        let n = self.students.len();
        let mut i: usize = 0;
        while i < n
            invariant
                i <= n,
                n == self.students@.len(),
                out@ == self.students@.subrange(0, i as int),
            decreases n - i,
        {
            out.push(copy_student(&self.students[i]));
            proof {
                assert(out@ =~= self.students@.subrange(0, i as int + 1));
            }
            i = i + 1;
        }
        proof {
            assert(self.students@.subrange(0, n as int) =~= self.students@);
        }
        out
    }

    /// Rewrites the student with the given identity; the identity itself
    /// is immutable.  Validation comes first, then the lookup.
    #[verifier::loop_isolation(false)]
    pub fn update_student(
        &mut self,
        id: i64,
        first_name: String,
        last_name: String,
        email: Option<String>,
    ) -> (r: Result<Student, Error>)
        requires
            old(self).wf(),
        ensures
            final(self).wf(),
            match r {
                Ok(s) => {
                    &&& first_name@.len() > 0
                    &&& last_name@.len() > 0
                    &&& s == (Student { id, first_name, last_name, email })
                    &&& exists|i: int|
                        0 <= i < old(self).students@.len() && (#[trigger] old(
                            self,
                        ).students@[i]).id == id && final(self).students@ == old(
                            self,
                        ).students@.update(i, s)
                    &&& final(self).next_student_id == old(self).next_student_id
                    &&& only_students_changed(*old(self), *final(self))
                },
                Err(e) => {
                    &&& *final(self) == *old(self)
                    &&& (e.kind == ErrorKind::InvalidInput && (first_name@.len() == 0
                        || last_name@.len() == 0)) || (e.kind == ErrorKind::NotFound
                        && first_name@.len() > 0 && last_name@.len() > 0 && !has_student(
                        old(self).students@,
                        id,
                    ))
                },
            },
    {
        if first_name.as_str().is_empty() || last_name.as_str().is_empty() {
            return Err(
                Error::new(ErrorKind::InvalidInput, "a student needs a first and a last name"),
            );
        }
        let n = self.students.len();
        let mut k: usize = 0;
        while k < n
            invariant
                *self == *old(self),
                k <= n,
                n == self.students@.len(),
                forall|j: int| 0 <= j < k ==> (#[trigger] self.students@[j]).id != id,
            decreases n - k,
        {
            if self.students[k].id == id {
                let stored = Student { id, first_name, last_name, email };
                let returned = copy_student(&stored);
                let ghost stored0 = stored;
                let ghost pre = *self;
                self.students.set(k, stored);
                proof {
                    let s1 = pre.students@;
                    let s2 = self.students@;
                    assert forall|i: int, j: int|
                        #![trigger s2[i].id, s2[j].id]
                        0 <= i < j < s2.len() implies s2[i].id < s2[j].id by {
                        assert(s1[i].id < s1[j].id);
                    }
                    assert forall|i: int|
                        0 <= i < self.enrollments@.len() implies has_student(
                            self.students@,
                            (#[trigger] self.enrollments@[i]).student_id,
                        ) && has_class(self.classes@, self.enrollments@[i].class_id) by {
                        lemma_has_student_update(
                            s1,
                            k as int,
                            stored0,
                            self.enrollments@[i].student_id,
                        );
                    }
                }
                return Ok(returned);
            }
            k = k + 1;
        }
        Err(Error::new(ErrorKind::NotFound, "no student with that identity"))
    }

    /// Deletes the student with the given identity.  A student with an
    /// enrollment (and hence possibly grades) is a dependency target: the
    /// deletion is rejected with `HasDependents`.
    #[verifier::loop_isolation(false)]
    pub fn delete_student(&mut self, id: i64) -> (r: Result<(), Error>)
        requires
            old(self).wf(),
        ensures
            final(self).wf(),
            match r {
                Ok(_) => {
                    &&& forall|i: int|
                        0 <= i < old(self).enrollments@.len() ==> (#[trigger] old(
                            self,
                        ).enrollments@[i]).student_id != id
                    &&& exists|i: int|
                        0 <= i < old(self).students@.len() && (#[trigger] old(
                            self,
                        ).students@[i]).id == id && final(self).students@ == old(
                            self,
                        ).students@.remove(i)
                    &&& final(self).next_student_id == old(self).next_student_id
                    &&& only_students_changed(*old(self), *final(self))
                },
                Err(e) => {
                    &&& *final(self) == *old(self)
                    &&& (e.kind == ErrorKind::NotFound && !has_student(old(self).students@, id)) || (
                    e.kind == ErrorKind::HasDependents && has_student(old(self).students@, id)
                        && exists|i: int|
                        0 <= i < old(self).enrollments@.len() && (#[trigger] old(
                            self,
                        ).enrollments@[i]).student_id == id)
                },
            },
    {
        let n = self.students.len();
        let mut k: usize = 0;
        while k < n
            invariant
                *self == *old(self),
                k <= n,
                n == self.students@.len(),
                forall|j: int| 0 <= j < k ==> (#[trigger] self.students@[j]).id != id,
            decreases n - k,
        {
            if self.students[k].id == id {
                let m = self.enrollments.len();
                let mut t: usize = 0;
                while t < m
                    invariant
                        *self == *old(self),
                        t <= m,
                        m == self.enrollments@.len(),
                        forall|j: int|
                            0 <= j < t ==> (#[trigger] self.enrollments@[j]).student_id != id,
                    decreases m - t,
                {
                    if self.enrollments[t].student_id == id {
                        return Err(
                            Error::new(
                                ErrorKind::HasDependents,
                                "the student still has enrollments",
                            ),
                        );
                    }
                    t = t + 1;
                }
                let ghost pre = *self;
                self.students.remove(k);
                proof {
                    let s1 = pre.students@;
                    let s2 = self.students@;
                    assert forall|i: int, j: int|
                        #![trigger s2[i].id, s2[j].id]
                        0 <= i < j < s2.len() implies s2[i].id < s2[j].id by {
                        let i1: int = if i < k { i } else { i + 1 };
                        let j1: int = if j < k { j } else { j + 1 };
                        assert(s2[i] == s1[i1]);
                        assert(s2[j] == s1[j1]);
                    }
                    assert forall|i: int|
                        0 <= i < self.enrollments@.len() implies has_student(
                            self.students@,
                            (#[trigger] self.enrollments@[i]).student_id,
                        ) && has_class(self.classes@, self.enrollments@[i].class_id) by {
                        lemma_has_student_remove(s1, k as int, self.enrollments@[i].student_id);
                    }
                }
                return Ok(());
            }
            k = k + 1;
        }
        Err(Error::new(ErrorKind::NotFound, "no student with that identity"))
    }

    /// Creates a class with a fresh identity.  The name is required; an
    /// empty one is `InvalidInput`.
    pub fn create_class(&mut self, class_name: String, description: Option<String>) -> (r: Result<
        Class,
        Error,
    >)
        requires
            old(self).wf(),
            old(self).next_class_id < i64::MAX,
        ensures
            final(self).wf(),
            match r {
                Ok(c) => {
                    &&& class_name@.len() > 0
                    &&& c == (Class {
                        id: old(self).next_class_id,
                        class_name: class_name,
                        description: description,
                    })
                    &&& final(self).classes@ == old(self).classes@.push(c)
                    &&& final(self).next_class_id == old(self).next_class_id + 1
                    &&& only_classes_changed(*old(self), *final(self))
                },
                Err(e) => {
                    &&& e.kind == ErrorKind::InvalidInput
                    &&& class_name@.len() == 0
                    &&& *final(self) == *old(self)
                },
            },
    {
        if class_name.as_str().is_empty() {
            return Err(Error::new(ErrorKind::InvalidInput, "a class needs a name"));
        }
        let id = self.next_class_id;
        let stored = Class { id, class_name, description };
        let returned = copy_class(&stored);
        let ghost stored0 = stored;
        let ghost pre = *self;
        self.classes.push(stored);
        self.next_class_id = id + 1;
        proof {
            let c1 = pre.classes@;
            let c2 = self.classes@;
            assert forall|i: int, j: int|
                #![trigger c2[i].id, c2[j].id]
                0 <= i < j < c2.len() implies c2[i].id < c2[j].id by {
                if j < c2.len() - 1 {
                } else {
                    assert(c2[i] == c1[i]);
                }
            }
            assert forall|i: int|
                0 <= i < self.enrollments@.len() implies has_student(
                    self.students@,
                    (#[trigger] self.enrollments@[i]).student_id,
                ) && has_class(self.classes@, self.enrollments@[i].class_id) by {
                lemma_has_class_push(c1, stored0, self.enrollments@[i].class_id);
            }
            assert forall|i: int|
                0 <= i < self.assignments@.len() implies has_class(
                    self.classes@,
                    (#[trigger] self.assignments@[i]).class_id,
                ) && self.assignments@[i].assignment_name@.len() > 0
                && self.assignments@[i].maximum_score >= 1 by {
                lemma_has_class_push(c1, stored0, self.assignments@[i].class_id);
            }
        }
        Ok(returned)
    }

    /// Reads the class with the given identity; `NotFound` if absent.
    #[verifier::loop_isolation(false)]
    pub fn get_class(&self, id: i64) -> (r: Result<Class, Error>)
        ensures
            match r {
                Ok(c) => c.id == id && exists|i: int|
                    0 <= i < self.classes@.len() && #[trigger] self.classes@[i] == c,
                Err(e) => e.kind == ErrorKind::NotFound && !has_class(self.classes@, id),
            },
    {
        let n = self.classes.len();
        let mut i: usize = 0;
        while i < n
            invariant
                i <= n,
                n == self.classes@.len(),
                forall|j: int| 0 <= j < i ==> (#[trigger] self.classes@[j]).id != id,
            decreases n - i,
        {
            if self.classes[i].id == id {
                return Ok(copy_class(&self.classes[i]));
            }
            i = i + 1;
        }
        Err(Error::new(ErrorKind::NotFound, "no class with that identity"))
    }

    /// A snapshot of all classes, ordered by identity ascending.
    #[verifier::loop_isolation(false)]
    pub fn get_all_classes(&self) -> (r: Vec<Class>)
        ensures
            r@ == self.classes@,
    {
        let mut out: Vec<Class> = Vec::new();
        let n = self.classes.len();
        let mut i: usize = 0;
        while i < n
            invariant
                i <= n,
                n == self.classes@.len(),
                out@ == self.classes@.subrange(0, i as int),
            decreases n - i,
        {
            out.push(copy_class(&self.classes[i]));
            proof {
                assert(out@ =~= self.classes@.subrange(0, i as int + 1));
            }
            i = i + 1;
        }
        proof {
            assert(self.classes@.subrange(0, n as int) =~= self.classes@);
        }
        out
    }

    /// Rewrites the class with the given identity; the identity itself is
    /// immutable.  Validation comes first, then the lookup.
    #[verifier::loop_isolation(false)]
    pub fn update_class(
        &mut self,
        id: i64,
        class_name: String,
        description: Option<String>,
    ) -> (r: Result<Class, Error>)
        requires
            old(self).wf(),
        ensures
            final(self).wf(),
            match r {
                Ok(c) => {
                    &&& class_name@.len() > 0
                    &&& c == (Class { id, class_name, description })
                    &&& exists|i: int|
                        0 <= i < old(self).classes@.len() && (#[trigger] old(self).classes@[i]).id
                            == id && final(self).classes@ == old(self).classes@.update(i, c)
                    &&& final(self).next_class_id == old(self).next_class_id
                    &&& only_classes_changed(*old(self), *final(self))
                },
                Err(e) => {
                    &&& *final(self) == *old(self)
                    &&& (e.kind == ErrorKind::InvalidInput && class_name@.len() == 0) || (e.kind
                        == ErrorKind::NotFound && class_name@.len() > 0 && !has_class(
                        old(self).classes@,
                        id,
                    ))
                },
            },
    {
        if class_name.as_str().is_empty() {
            return Err(Error::new(ErrorKind::InvalidInput, "a class needs a name"));
        }
        let n = self.classes.len();
        let mut k: usize = 0;
        while k < n
            invariant
                *self == *old(self),
                k <= n,
                n == self.classes@.len(),
                forall|j: int| 0 <= j < k ==> (#[trigger] self.classes@[j]).id != id,
            decreases n - k,
        {
            if self.classes[k].id == id {
                let stored = Class { id, class_name, description };
                let returned = copy_class(&stored);
                let ghost stored0 = stored;
                let ghost pre = *self;
                self.classes.set(k, stored);
                proof {
                    let c1 = pre.classes@;
                    let c2 = self.classes@;
                    assert forall|i: int, j: int|
                        #![trigger c2[i].id, c2[j].id]
                        0 <= i < j < c2.len() implies c2[i].id < c2[j].id by {
                        assert(c1[i].id < c1[j].id);
                    }
                    assert forall|i: int|
                        0 <= i < self.enrollments@.len() implies has_student(
                            self.students@,
                            (#[trigger] self.enrollments@[i]).student_id,
                        ) && has_class(self.classes@, self.enrollments@[i].class_id) by {
                        lemma_has_class_update(
                            c1,
                            k as int,
                            stored0,
                            self.enrollments@[i].class_id,
                        );
                    }
                    assert forall|i: int|
                        0 <= i < self.assignments@.len() implies has_class(
                            self.classes@,
                            (#[trigger] self.assignments@[i]).class_id,
                        ) && self.assignments@[i].assignment_name@.len() > 0
                        && self.assignments@[i].maximum_score >= 1 by {
                        lemma_has_class_update(
                            c1,
                            k as int,
                            stored0,
                            self.assignments@[i].class_id,
                        );
                    }
                }
                return Ok(returned);
            }
            k = k + 1;
        }
        Err(Error::new(ErrorKind::NotFound, "no class with that identity"))
    }

    /// Deletes the class with the given identity.  A class that an
    /// enrollment or an assignment still references is a dependency target:
    /// the deletion is rejected with `HasDependents`.
    #[verifier::loop_isolation(false)]
    pub fn delete_class(&mut self, id: i64) -> (r: Result<(), Error>)
        requires
            old(self).wf(),
        ensures
            final(self).wf(),
            match r {
                Ok(_) => {
                    &&& forall|i: int|
                        0 <= i < old(self).enrollments@.len() ==> (#[trigger] old(
                            self,
                        ).enrollments@[i]).class_id != id
                    &&& forall|i: int|
                        0 <= i < old(self).assignments@.len() ==> (#[trigger] old(
                            self,
                        ).assignments@[i]).class_id != id
                    &&& exists|i: int|
                        0 <= i < old(self).classes@.len() && (#[trigger] old(self).classes@[i]).id
                            == id && final(self).classes@ == old(self).classes@.remove(i)
                    &&& final(self).next_class_id == old(self).next_class_id
                    &&& only_classes_changed(*old(self), *final(self))
                },
                Err(e) => {
                    &&& *final(self) == *old(self)
                    &&& (e.kind == ErrorKind::NotFound && !has_class(old(self).classes@, id)) || (
                    e.kind == ErrorKind::HasDependents && has_class(old(self).classes@, id) && (
                    exists|i: int|
                        0 <= i < old(self).enrollments@.len() && (#[trigger] old(
                            self,
                        ).enrollments@[i]).class_id == id || exists|i: int|
                        0 <= i < old(self).assignments@.len() && (#[trigger] old(
                            self,
                        ).assignments@[i]).class_id == id))
                },
            },
    {
        let n = self.classes.len();
        let mut k: usize = 0;
        while k < n
            invariant
                *self == *old(self),
                k <= n,
                n == self.classes@.len(),
                forall|j: int| 0 <= j < k ==> (#[trigger] self.classes@[j]).id != id,
            decreases n - k,
        {
            if self.classes[k].id == id {
                let m = self.enrollments.len();
                let mut t: usize = 0;
                while t < m
                    invariant
                        *self == *old(self),
                        t <= m,
                        m == self.enrollments@.len(),
                        forall|j: int|
                            0 <= j < t ==> (#[trigger] self.enrollments@[j]).class_id != id,
                    decreases m - t,
                {
                    if self.enrollments[t].class_id == id {
                        return Err(
                            Error::new(ErrorKind::HasDependents, "the class still has enrollments"),
                        );
                    }
                    t = t + 1;
                }
                let p = self.assignments.len();
                let mut u: usize = 0;
                while u < p
                    invariant
                        *self == *old(self),
                        u <= p,
                        p == self.assignments@.len(),
                        forall|j: int|
                            0 <= j < u ==> (#[trigger] self.assignments@[j]).class_id != id,
                    decreases p - u,
                {
                    if self.assignments[u].class_id == id {
                        return Err(
                            Error::new(ErrorKind::HasDependents, "the class still has assignments"),
                        );
                    }
                    u = u + 1;
                }
                let ghost pre = *self;
                self.classes.remove(k);
                proof {
                    let c1 = pre.classes@;
                    let c2 = self.classes@;
                    assert forall|i: int, j: int|
                        #![trigger c2[i].id, c2[j].id]
                        0 <= i < j < c2.len() implies c2[i].id < c2[j].id by {
                        let i1: int = if i < k { i } else { i + 1 };
                        let j1: int = if j < k { j } else { j + 1 };
                        assert(c2[i] == c1[i1]);
                        assert(c2[j] == c1[j1]);
                    }
                    assert forall|i: int|
                        0 <= i < self.enrollments@.len() implies has_student(
                            self.students@,
                            (#[trigger] self.enrollments@[i]).student_id,
                        ) && has_class(self.classes@, self.enrollments@[i].class_id) by {
                        lemma_has_class_remove(c1, k as int, self.enrollments@[i].class_id);
                    }
                    assert forall|i: int|
                        0 <= i < self.assignments@.len() implies has_class(
                            self.classes@,
                            (#[trigger] self.assignments@[i]).class_id,
                        ) && self.assignments@[i].assignment_name@.len() > 0
                        && self.assignments@[i].maximum_score >= 1 by {
                        lemma_has_class_remove(c1, k as int, self.assignments@[i].class_id);
                    }
                }
                return Ok(());
            }
            k = k + 1;
        }
        Err(Error::new(ErrorKind::NotFound, "no class with that identity"))
    }

    /// The class the assignment with identity `aid` belongs to, if the
    /// assignment exists.
    #[verifier::loop_isolation(false)]
    fn assignment_class_of(&self, aid: i64) -> (r: Option<i64>)
        ensures
            match r {
                Some(c) => find_assignment(self.assignments@, aid) matches Some(a) && a.class_id
                    == c,
                None => find_assignment(self.assignments@, aid) is None,
            },
    {
        let n = self.assignments.len();
        let mut i: usize = 0;
        while i < n
            invariant
                i <= n,
                n == self.assignments@.len(),
                forall|j: int| 0 <= j < i ==> (#[trigger] self.assignments@[j]).id != aid,
            decreases n - i,
        {
            if self.assignments[i].id == aid {
                proof {
                    crate::grading::lemma_find_assignment_first(self.assignments@, aid, i as int);
                }
                return Some(self.assignments[i].class_id);
            }
            i = i + 1;
        }
        proof {
            crate::grading::lemma_find_assignment_absent(self.assignments@, aid);
        }
        None
    }

    /// Whether the store holds a student with identity `id`.
    #[verifier::loop_isolation(false)]
    fn student_exists(&self, id: i64) -> (r: bool)
        ensures
            r == has_student(self.students@, id),
    {
        let n = self.students.len();
        let mut i: usize = 0;
        while i < n
            invariant
                i <= n,
                n == self.students@.len(),
                forall|j: int| 0 <= j < i ==> (#[trigger] self.students@[j]).id != id,
            decreases n - i,
        {
            if self.students[i].id == id {
                return true;
            }
            i = i + 1;
        }
        false
    }

    /// Whether the store holds a class with identity `id`.
    #[verifier::loop_isolation(false)]
    fn class_exists(&self, id: i64) -> (r: bool)
        ensures
            r == has_class(self.classes@, id),
    {
        let n = self.classes.len();
        let mut i: usize = 0;
        while i < n
            invariant
                i <= n,
                n == self.classes@.len(),
                forall|j: int| 0 <= j < i ==> (#[trigger] self.classes@[j]).id != id,
            decreases n - i,
        {
            if self.classes[i].id == id {
                return true;
            }
            i = i + 1;
        }
        false
    }

    /// Enrolls a student in a class.  Both must exist (`NotFound`); a pair
    /// can be enrolled only once (`NotUnique`).
    #[verifier::loop_isolation(false)]
    pub fn enroll_student(&mut self, student_id: i64, class_id: i64) -> (r: Result<
        StudentClass,
        Error,
    >)
        requires
            old(self).wf(),
        ensures
            final(self).wf(),
            match r {
                Ok(sc) => {
                    &&& has_student(old(self).students@, student_id)
                    &&& has_class(old(self).classes@, class_id)
                    &&& !has_enrollment(old(self).enrollments@, student_id, class_id)
                    &&& sc == (StudentClass { student_id, class_id })
                    &&& inserted_enrollment(
                        old(self).enrollments@,
                        final(self).enrollments@,
                        sc,
                    )
                    &&& has_enrollment(final(self).enrollments@, student_id, class_id)
                    &&& only_enrollments_changed(*old(self), *final(self))
                },
                Err(e) => {
                    &&& *final(self) == *old(self)
                    &&& (e.kind == ErrorKind::NotFound && (!has_student(
                        old(self).students@,
                        student_id,
                    ) || !has_class(old(self).classes@, class_id))) || (e.kind
                        == ErrorKind::NotUnique && has_student(old(self).students@, student_id)
                        && has_class(old(self).classes@, class_id) && has_enrollment(
                        old(self).enrollments@,
                        student_id,
                        class_id,
                    ))
                },
            },
    {
        if !self.student_exists(student_id) {
            return Err(Error::new(ErrorKind::NotFound, "no student with that identity"));
        }
        if !self.class_exists(class_id) {
            return Err(Error::new(ErrorKind::NotFound, "no class with that identity"));
        }
        let pair = StudentClass { student_id, class_id };
        let n = self.enrollments.len();
        let mut k: usize = 0;
        while k < n
            invariant
                *self == *old(self),
                k <= n,
                n == self.enrollments@.len(),
                forall|j: int|
                    0 <= j < k ==> enrollment_key_lt(#[trigger] self.enrollments@[j], pair),
            decreases n - k,
        {
            let e = self.enrollments[k];
            if e.student_id == student_id && e.class_id == class_id {
                return Err(Error::new(ErrorKind::NotUnique, "the pair is already enrolled"));
            }
            if e.student_id > student_id || (e.student_id == student_id && e.class_id > class_id) {
                break ;
            }
            k = k + 1;
        }
        let ghost pre = *self;
        self.enrollments.insert(k, pair);
        proof {
            let e1 = pre.enrollments@;
            let e2 = self.enrollments@;
            e1.insert_ensures(k as int, pair);
            assert(!has_enrollment(e1, student_id, class_id));
            assert forall|i: int, j: int|
                #![trigger e2[i], e2[j]]
                0 <= i < j < e2.len() implies enrollment_key_lt(e2[i], e2[j]) by {
                if (k as int) < j {
                    assert(e2[j] == e1[j - 1]);
                }
                if (k as int) < i {
                    assert(e2[i] == e1[i - 1]);
                }
                if i < k as int {
                    assert(e2[i] == e1[i]);
                }
                if j < k as int {
                    assert(e2[j] == e1[j]);
                }
            }
            assert forall|i: int|
                0 <= i < e2.len() implies has_student(
                    self.students@,
                    (#[trigger] e2[i]).student_id,
                ) && has_class(self.classes@, e2[i].class_id) by {
                if i != k as int {
                    let i1: int = if i < k as int {
                        i
                    } else {
                        i - 1
                    };
                    assert(e2[i] == e1[i1]);
                }
            }
            assert forall|i: int|
                0 <= i < self.grades@.len() implies match find_assignment(
                    self.assignments@,
                    (#[trigger] self.grades@[i]).assignment_id,
                ) {
                    Some(a) => self.grades@[i].score <= a.maximum_score && has_enrollment(
                        self.enrollments@,
                        self.grades@[i].student_id,
                        a.class_id,
                    ),
                    None => false,
                } by {
                let a = find_assignment(self.assignments@, self.grades@[i].assignment_id).unwrap();
                lemma_has_enrollment_insert(
                    e1,
                    k as int,
                    pair,
                    self.grades@[i].student_id,
                    a.class_id,
                );
            }
            assert(inserted_enrollment(old(self).enrollments@, self.enrollments@, pair)) by {
                assert(self.enrollments@ == old(self).enrollments@.insert(k as int, pair));
            }
        }
        Ok(pair)
    }

    /// A snapshot of all enrollments, ordered by (student, class)
    /// ascending.
    #[verifier::loop_isolation(false)]
    pub fn get_enrollments(&self) -> (r: Vec<StudentClass>)
        ensures
            r@ == self.enrollments@,
    {
        let mut out: Vec<StudentClass> = Vec::new();
        let n = self.enrollments.len();
        let mut i: usize = 0;
        while i < n
            invariant
                i <= n,
                n == self.enrollments@.len(),
                out@ == self.enrollments@.subrange(0, i as int),
            decreases n - i,
        {
            out.push(self.enrollments[i]);
            proof {
                assert(out@ =~= self.enrollments@.subrange(0, i as int + 1));
            }
            i = i + 1;
        }
        proof {
            assert(self.enrollments@.subrange(0, n as int) =~= self.enrollments@);
        }
        out
    }

    /// Removes the (student, class) enrollment.  A pair whose student
    /// still has a counted grade in the class is a dependency target: the
    /// unenroll is rejected with `HasDependents`.
    #[verifier::loop_isolation(false)]
    pub fn unenroll_student(&mut self, student_id: i64, class_id: i64) -> (r: Result<(), Error>)
        requires
            old(self).wf(),
        ensures
            final(self).wf(),
            match r {
                Ok(_) => {
                    &&& forall|i: int|
                        0 <= i < old(self).grades@.len() ==> !grade_counts(
                            #[trigger] old(self).grades@[i],
                            old(self).assignments@,
                            student_id,
                            class_id,
                        )
                    &&& exists|i: int|
                        0 <= i < old(self).enrollments@.len() && #[trigger] old(
                            self,
                        ).enrollments@[i] == (StudentClass { student_id, class_id })
                            && final(self).enrollments@ == old(self).enrollments@.remove(i)
                    &&& only_enrollments_changed(*old(self), *final(self))
                },
                Err(e) => {
                    &&& *final(self) == *old(self)
                    &&& (e.kind == ErrorKind::NotFound && !has_enrollment(
                        old(self).enrollments@,
                        student_id,
                        class_id,
                    )) || (e.kind == ErrorKind::HasDependents && has_enrollment(
                        old(self).enrollments@,
                        student_id,
                        class_id,
                    ) && exists|i: int|
                        0 <= i < old(self).grades@.len() && grade_counts(
                            #[trigger] old(self).grades@[i],
                            old(self).assignments@,
                            student_id,
                            class_id,
                        ))
                },
            },
    {
        let pair = StudentClass { student_id, class_id };
        let n = self.enrollments.len();
        let mut k: usize = 0;
        while k < n
            invariant
                *self == *old(self),
                k <= n,
                n == self.enrollments@.len(),
                forall|j: int| 0 <= j < k ==> #[trigger] self.enrollments@[j] != pair,
            decreases n - k,
        {
            let e = self.enrollments[k];
            if e.student_id == student_id && e.class_id == class_id {
                let m = self.grades.len();
                let mut t: usize = 0;
                while t < m
                    invariant
                        *self == *old(self),
                        t <= m,
                        m == self.grades@.len(),
                        forall|j: int|
                            0 <= j < t ==> !grade_counts(
                                #[trigger] self.grades@[j],
                                self.assignments@,
                                student_id,
                                class_id,
                            ),
                    decreases m - t,
                {
                    let g = self.grades[t];
                    if g.student_id == student_id {
                        match self.assignment_class_of(g.assignment_id) {
                            Some(c) => {
                                if c == class_id {
                                    return Err(
                                        Error::new(
                                            ErrorKind::HasDependents,
                                            "the student still has grades in the class",
                                        ),
                                    );
                                }
                            },
                            None => {},
                        }
                    }
                    t = t + 1;
                }
                let ghost pre = *self;
                self.enrollments.remove(k);
                proof {
                    let e1 = pre.enrollments@;
                    let e2 = self.enrollments@;
                    assert forall|i: int, j: int|
                        #![trigger e2[i], e2[j]]
                        0 <= i < j < e2.len() implies enrollment_key_lt(e2[i], e2[j]) by {
                        let i1: int = if i < k { i } else { i + 1 };
                        let j1: int = if j < k { j } else { j + 1 };
                        assert(e2[i] == e1[i1]);
                        assert(e2[j] == e1[j1]);
                    }
                    assert forall|i: int|
                        0 <= i < e2.len() implies has_student(
                            self.students@,
                            (#[trigger] e2[i]).student_id,
                        ) && has_class(self.classes@, e2[i].class_id) by {
                        let i1: int = if i < k { i } else { i + 1 };
                        assert(e2[i] == e1[i1]);
                    }
                    assert forall|i: int|
                        0 <= i < self.grades@.len() implies match find_assignment(
                            self.assignments@,
                            (#[trigger] self.grades@[i]).assignment_id,
                        ) {
                            Some(a) => self.grades@[i].score <= a.maximum_score && has_enrollment(
                                self.enrollments@,
                                self.grades@[i].student_id,
                                a.class_id,
                            ),
                            None => false,
                        } by {
                        let g = self.grades@[i];
                        let a = find_assignment(self.assignments@, g.assignment_id).unwrap();
                        assert(!grade_counts(g, self.assignments@, student_id, class_id));
                        assert(e1[k as int] != (StudentClass {
                            student_id: g.student_id,
                            class_id: a.class_id,
                        }));
                        lemma_has_enrollment_remove(e1, k as int, g.student_id, a.class_id);
                    }
                }
                return Ok(());
            }
            k = k + 1;
        }
        Err(Error::new(ErrorKind::NotFound, "the pair is not enrolled"))
    }

    /// Creates an assignment of a class, with a fresh identity.  The name
    /// is required and the maximum score must be positive (`InvalidInput`);
    /// the class must exist (`NotFound`).
    #[verifier::loop_isolation(false)]
    pub fn create_assignment(
        &mut self,
        class_id: i64,
        assignment_name: String,
        assignment_type: String,
        maximum_score: u32,
        due_date: Option<i64>,
    ) -> (r: Result<Assignment, Error>)
        requires
            old(self).wf(),
            old(self).next_assignment_id < i64::MAX,
        ensures
            final(self).wf(),
            match r {
                Ok(a) => {
                    &&& assignment_name@.len() > 0
                    &&& maximum_score >= 1
                    &&& has_class(old(self).classes@, class_id)
                    &&& a == (Assignment {
                        id: old(self).next_assignment_id,
                        class_id: class_id,
                        assignment_name: assignment_name,
                        assignment_type: assignment_type,
                        maximum_score: maximum_score,
                        due_date: due_date,
                    })
                    &&& final(self).assignments@ == old(self).assignments@.push(a)
                    &&& final(self).next_assignment_id == old(self).next_assignment_id + 1
                    &&& only_assignments_changed(*old(self), *final(self))
                },
                Err(e) => {
                    &&& *final(self) == *old(self)
                    &&& if assignment_name@.len() == 0 || maximum_score == 0 {
                        e.kind == ErrorKind::InvalidInput
                    } else {
                        e.kind == ErrorKind::NotFound && !has_class(old(self).classes@, class_id)
                    }
                },
            },
    {
        if assignment_name.as_str().is_empty() || maximum_score == 0 {
            return Err(
                Error::new(
                    ErrorKind::InvalidInput,
                    "an assignment needs a name and a positive maximum score",
                ),
            );
        }
        if !self.class_exists(class_id) {
            return Err(Error::new(ErrorKind::NotFound, "no class with that identity"));
        }
        let id = self.next_assignment_id;
        let stored = Assignment {
            id,
            class_id,
            assignment_name,
            assignment_type,
            maximum_score,
            due_date,
        };
        let returned = copy_assignment(&stored);
        let ghost stored0 = stored;
        let ghost pre = *self;
        self.assignments.push(stored);
        self.next_assignment_id = id + 1;
        proof {
            let a1 = pre.assignments@;
            let a2 = self.assignments@;
            assert forall|i: int, j: int|
                #![trigger a2[i].id, a2[j].id]
                0 <= i < j < a2.len() implies a2[i].id < a2[j].id by {
                if j < a2.len() - 1 {
                } else {
                    assert(a2[i] == a1[i]);
                }
            }
            assert forall|i: int|
                0 <= i < a2.len() implies has_class(self.classes@, (#[trigger] a2[i]).class_id)
                && a2[i].assignment_name@.len() > 0 && a2[i].maximum_score >= 1 by {
                if i < a2.len() - 1 {
                    assert(a2[i] == a1[i]);
                }
            }
            assert forall|i: int|
                0 <= i < self.grades@.len() implies match find_assignment(
                    self.assignments@,
                    (#[trigger] self.grades@[i]).assignment_id,
                ) {
                    Some(a) => self.grades@[i].score <= a.maximum_score && has_enrollment(
                        self.enrollments@,
                        self.grades@[i].student_id,
                        a.class_id,
                    ),
                    None => false,
                } by {
                crate::grading::lemma_find_assignment_push(
                    a1,
                    stored0,
                    self.grades@[i].assignment_id,
                );
            }
        }
        Ok(returned)
    }

    /// Reads the assignment with the given identity; `NotFound` if absent.
    #[verifier::loop_isolation(false)]
    pub fn get_assignment(&self, id: i64) -> (r: Result<Assignment, Error>)
        ensures
            match r {
                Ok(a) => a.id == id && find_assignment(self.assignments@, id) == Some(a),
                Err(e) => e.kind == ErrorKind::NotFound && !has_assignment(self.assignments@, id),
            },
    {
        let n = self.assignments.len();
        let mut i: usize = 0;
        while i < n
            invariant
                i <= n,
                n == self.assignments@.len(),
                forall|j: int| 0 <= j < i ==> (#[trigger] self.assignments@[j]).id != id,
            decreases n - i,
        {
            if self.assignments[i].id == id {
                proof {
                    crate::grading::lemma_find_assignment_first(self.assignments@, id, i as int);
                }
                return Ok(copy_assignment(&self.assignments[i]));
            }
            i = i + 1;
        }
        Err(Error::new(ErrorKind::NotFound, "no assignment with that identity"))
    }

    /// A snapshot of all assignments, ordered by identity ascending.
    #[verifier::loop_isolation(false)]
    pub fn get_all_assignments(&self) -> (r: Vec<Assignment>)
        ensures
            r@ == self.assignments@,
    {
        let mut out: Vec<Assignment> = Vec::new();
        let n = self.assignments.len();
        let mut i: usize = 0;
        while i < n
            invariant
                i <= n,
                n == self.assignments@.len(),
                out@ == self.assignments@.subrange(0, i as int),
            decreases n - i,
        {
            out.push(copy_assignment(&self.assignments[i]));
            proof {
                assert(out@ =~= self.assignments@.subrange(0, i as int + 1));
            }
            i = i + 1;
        }
        proof {
            assert(self.assignments@.subrange(0, n as int) =~= self.assignments@);
        }
        out
    }

    /// Rewrites the assignment with the given identity; the identity
    /// itself is immutable.  Validation comes first, then the lookups.
    /// Because grades depend on the assignment, the rewrite may not move a
    /// graded assignment to another class (`HasDependents`) nor push its
    /// maximum below a recorded score (`InvalidInput`).
    #[verifier::loop_isolation(false)]
    pub fn update_assignment(
        &mut self,
        id: i64,
        class_id: i64,
        assignment_name: String,
        assignment_type: String,
        maximum_score: u32,
        due_date: Option<i64>,
    ) -> (r: Result<Assignment, Error>)
        requires
            old(self).wf(),
        ensures
            final(self).wf(),
            match r {
                Ok(a) => {
                    &&& assignment_name@.len() > 0
                    &&& maximum_score >= 1
                    &&& has_class(old(self).classes@, class_id)
                    &&& a == (Assignment {
                        id,
                        class_id,
                        assignment_name,
                        assignment_type,
                        maximum_score,
                        due_date,
                    })
                    &&& forall|i: int|
                        0 <= i < old(self).grades@.len() && (#[trigger] old(
                            self,
                        ).grades@[i]).assignment_id == id ==> old(self).grades@[i].score
                            <= maximum_score && find_assignment(
                            old(self).assignments@,
                            id,
                        ).unwrap().class_id == class_id
                    &&& exists|i: int|
                        0 <= i < old(self).assignments@.len() && (#[trigger] old(
                            self,
                        ).assignments@[i]).id == id && final(self).assignments@ == old(
                            self,
                        ).assignments@.update(i, a)
                    &&& final(self).next_assignment_id == old(self).next_assignment_id
                    &&& only_assignments_changed(*old(self), *final(self))
                },
                Err(e) => {
                    &&& *final(self) == *old(self)
                    &&& if assignment_name@.len() == 0 || maximum_score == 0 {
                        e.kind == ErrorKind::InvalidInput
                    } else if !has_assignment(old(self).assignments@, id) || !has_class(
                        old(self).classes@,
                        class_id,
                    ) {
                        e.kind == ErrorKind::NotFound
                    } else if find_assignment(old(self).assignments@, id).unwrap().class_id
                        != class_id && assignment_has_grades(old(self).grades@, id) {
                        e.kind == ErrorKind::HasDependents
                    } else {
                        e.kind == ErrorKind::InvalidInput && exists|i: int|
                            0 <= i < old(self).grades@.len() && (#[trigger] old(
                                self,
                            ).grades@[i]).assignment_id == id && old(self).grades@[i].score
                                > maximum_score
                    }
                },
            },
    {
        if assignment_name.as_str().is_empty() || maximum_score == 0 {
            return Err(
                Error::new(
                    ErrorKind::InvalidInput,
                    "an assignment needs a name and a positive maximum score",
                ),
            );
        }
        let n = self.assignments.len();
        let mut k: usize = 0;
        while k < n
            invariant
                *self == *old(self),
                k <= n,
                n == self.assignments@.len(),
                forall|j: int| 0 <= j < k ==> (#[trigger] self.assignments@[j]).id != id,
            decreases n - k,
        {
            if self.assignments[k].id == id {
                proof {
                    crate::grading::lemma_find_assignment_first(self.assignments@, id, k as int);
                }
                if !self.class_exists(class_id) {
                    return Err(Error::new(ErrorKind::NotFound, "no class with that identity"));
                }
                let cur_class = self.assignments[k].class_id;
                let m = self.grades.len();
                let mut t: usize = 0;
                while t < m
                    invariant
                        *self == *old(self),
                        t <= m,
                        m == self.grades@.len(),
                        forall|j: int|
                            0 <= j < t && (#[trigger] self.grades@[j]).assignment_id == id
                                ==> class_id == cur_class && self.grades@[j].score
                                <= maximum_score,
                    decreases m - t,
                {
                    let g = self.grades[t];
                    if g.assignment_id == id {
                        if cur_class != class_id {
                            return Err(
                                Error::new(
                                    ErrorKind::HasDependents,
                                    "the assignment has grades; it cannot move to another class",
                                ),
                            );
                        }
                        if g.score > maximum_score {
                            return Err(
                                Error::new(
                                    ErrorKind::InvalidInput,
                                    "the new maximum is below a recorded score",
                                ),
                            );
                        }
                    }
                    t = t + 1;
                }
                let stored = Assignment {
                    id,
                    class_id,
                    assignment_name,
                    assignment_type,
                    maximum_score,
                    due_date,
                };
                let returned = copy_assignment(&stored);
                let ghost stored0 = stored;
                let ghost pre = *self;
                self.assignments.set(k, stored);
                proof {
                    let a1 = pre.assignments@;
                    let a2 = self.assignments@;
                    assert forall|i: int, j: int|
                        #![trigger a2[i].id, a2[j].id]
                        0 <= i < j < a2.len() implies a2[i].id < a2[j].id by {
                        assert(a1[i].id < a1[j].id);
                    }
                    assert forall|j: int|
                        0 <= j < a1.len() && j != k as int implies (#[trigger] a1[j]).id != a1[
                            k as int
                        ].id by {
                        if j < k as int {
                            assert(a1[j].id < a1[k as int].id);
                        } else {
                            assert(a1[k as int].id < a1[j].id);
                        }
                    }
                    assert forall|i: int|
                        0 <= i < self.grades@.len() implies match find_assignment(
                            self.assignments@,
                            (#[trigger] self.grades@[i]).assignment_id,
                        ) {
                            Some(a) => self.grades@[i].score <= a.maximum_score && has_enrollment(
                                self.enrollments@,
                                self.grades@[i].student_id,
                                a.class_id,
                            ),
                            None => false,
                        } by {
                        let g = self.grades@[i];
                        crate::grading::lemma_find_assignment_update(
                            a1,
                            k as int,
                            stored0,
                            g.assignment_id,
                        );
                        if g.assignment_id == id {
                            assert(find_assignment(a1, id) == Some(a1[k as int]));
                            assert(class_id == cur_class);
                        }
                    }
                }
                return Ok(returned);
            }
            k = k + 1;
        }
        Err(Error::new(ErrorKind::NotFound, "no assignment with that identity"))
    }

    /// Deletes the assignment with the given identity.  An assignment with
    /// recorded grades is a dependency target: the deletion is rejected
    /// with `HasDependents`.
    #[verifier::loop_isolation(false)]
    pub fn delete_assignment(&mut self, id: i64) -> (r: Result<(), Error>)
        requires
            old(self).wf(),
        ensures
            final(self).wf(),
            match r {
                Ok(_) => {
                    &&& !assignment_has_grades(old(self).grades@, id)
                    &&& exists|i: int|
                        0 <= i < old(self).assignments@.len() && (#[trigger] old(
                            self,
                        ).assignments@[i]).id == id && final(self).assignments@ == old(
                            self,
                        ).assignments@.remove(i)
                    &&& final(self).next_assignment_id == old(self).next_assignment_id
                    &&& only_assignments_changed(*old(self), *final(self))
                },
                Err(e) => {
                    &&& *final(self) == *old(self)
                    &&& (e.kind == ErrorKind::NotFound && !has_assignment(
                        old(self).assignments@,
                        id,
                    )) || (e.kind == ErrorKind::HasDependents && has_assignment(
                        old(self).assignments@,
                        id,
                    ) && assignment_has_grades(old(self).grades@, id))
                },
            },
    {
        let n = self.assignments.len();
        let mut k: usize = 0;
        while k < n
            invariant
                *self == *old(self),
                k <= n,
                n == self.assignments@.len(),
                forall|j: int| 0 <= j < k ==> (#[trigger] self.assignments@[j]).id != id,
            decreases n - k,
        {
            if self.assignments[k].id == id {
                let m = self.grades.len();
                let mut t: usize = 0;
                while t < m
                    invariant
                        *self == *old(self),
                        t <= m,
                        m == self.grades@.len(),
                        forall|j: int|
                            0 <= j < t ==> (#[trigger] self.grades@[j]).assignment_id != id,
                    decreases m - t,
                {
                    if self.grades[t].assignment_id == id {
                        return Err(
                            Error::new(ErrorKind::HasDependents, "the assignment still has grades"),
                        );
                    }
                    t = t + 1;
                }
                let ghost pre = *self;
                self.assignments.remove(k);
                proof {
                    let a1 = pre.assignments@;
                    let a2 = self.assignments@;
                    assert forall|i: int, j: int|
                        #![trigger a2[i].id, a2[j].id]
                        0 <= i < j < a2.len() implies a2[i].id < a2[j].id by {
                        let i1: int = if i < k { i } else { i + 1 };
                        let j1: int = if j < k { j } else { j + 1 };
                        assert(a2[i] == a1[i1]);
                        assert(a2[j] == a1[j1]);
                    }
                    assert forall|i: int|
                        0 <= i < a2.len() implies has_class(
                            self.classes@,
                            (#[trigger] a2[i]).class_id,
                        ) && a2[i].assignment_name@.len() > 0 && a2[i].maximum_score >= 1 by {
                        let i1: int = if i < k { i } else { i + 1 };
                        assert(a2[i] == a1[i1]);
                    }
                    assert forall|i: int|
                        0 <= i < self.grades@.len() implies match find_assignment(
                            self.assignments@,
                            (#[trigger] self.grades@[i]).assignment_id,
                        ) {
                            Some(a) => self.grades@[i].score <= a.maximum_score && has_enrollment(
                                self.enrollments@,
                                self.grades@[i].student_id,
                                a.class_id,
                            ),
                            None => false,
                        } by {
                        crate::grading::lemma_find_assignment_remove(
                            a1,
                            k as int,
                            self.grades@[i].assignment_id,
                        );
                    }
                }
                return Ok(());
            }
            k = k + 1;
        }
        Err(Error::new(ErrorKind::NotFound, "no assignment with that identity"))
    }

    /// Whether the (student, class) pair is enrolled.
    #[verifier::loop_isolation(false)]
    fn enrollment_exists(&self, student_id: i64, class_id: i64) -> (r: bool)
        ensures
            r == has_enrollment(self.enrollments@, student_id, class_id),
    {
        let n = self.enrollments.len();
        let mut i: usize = 0;
        while i < n
            invariant
                i <= n,
                n == self.enrollments@.len(),
                forall|j: int|
                    0 <= j < i ==> #[trigger] self.enrollments@[j] != (StudentClass {
                        student_id,
                        class_id,
                    }),
            decreases n - i,
        {
            let e = self.enrollments[i];
            if e.student_id == student_id && e.class_id == class_id {
                return true;
            }
            i = i + 1;
        }
        false
    }

    /// Records a score for a (student, assignment) pair.  The assignment
    /// must exist and the student must be enrolled in its class
    /// (`NotFound`); a pair can have only one grade (`NotUnique`; a
    /// resubmission goes through `update_grade`); the score may not exceed
    /// the assignment's maximum (`InvalidInput`).
    #[verifier::loop_isolation(false)]
    pub fn create_grade(&mut self, student_id: i64, assignment_id: i64, score: u32) -> (r: Result<
        Grade,
        Error,
    >)
        requires
            old(self).wf(),
        ensures
            final(self).wf(),
            match r {
                Ok(g) => {
                    &&& find_assignment(old(self).assignments@, assignment_id) matches Some(a)
                        && score <= a.maximum_score && has_enrollment(
                        old(self).enrollments@,
                        student_id,
                        a.class_id,
                    )
                    &&& !has_grade(old(self).grades@, student_id, assignment_id)
                    &&& g == (Grade { student_id, assignment_id, score })
                    &&& inserted_grade(old(self).grades@, final(self).grades@, g)
                    &&& has_grade(final(self).grades@, student_id, assignment_id)
                    &&& only_grades_changed(*old(self), *final(self))
                },
                Err(e) => {
                    &&& *final(self) == *old(self)
                    &&& if find_assignment(old(self).assignments@, assignment_id) is None {
                        e.kind == ErrorKind::NotFound
                    } else if !has_enrollment(
                        old(self).enrollments@,
                        student_id,
                        find_assignment(old(self).assignments@, assignment_id).unwrap().class_id,
                    ) {
                        e.kind == ErrorKind::NotFound
                    } else if has_grade(old(self).grades@, student_id, assignment_id) {
                        e.kind == ErrorKind::NotUnique
                    } else {
                        e.kind == ErrorKind::InvalidInput && score > find_assignment(
                            old(self).assignments@,
                            assignment_id,
                        ).unwrap().maximum_score
                    }
                },
            },
    {
        let a = match self.get_assignment(assignment_id) {
            Ok(a) => a,
            Err(_) => {
                proof {
                    if find_assignment(self.assignments@, assignment_id) is Some {
                        crate::grading::lemma_find_assignment_some(
                            self.assignments@,
                            assignment_id,
                        );
                    }
                }
                return Err(Error::new(ErrorKind::NotFound, "no assignment with that identity"));
            },
        };
        if !self.enrollment_exists(student_id, a.class_id) {
            return Err(
                Error::new(
                    ErrorKind::NotFound,
                    "the student is not enrolled in the assignment's class",
                ),
            );
        }
        let pair = Grade { student_id, assignment_id, score };
        let n = self.grades.len();
        let mut k: usize = 0;
        while k < n
            invariant
                *self == *old(self),
                k <= n,
                n == self.grades@.len(),
                forall|j: int| 0 <= j < k ==> grade_key_lt(#[trigger] self.grades@[j], pair),
            decreases n - k,
        {
            let g = self.grades[k];
            if g.student_id == student_id && g.assignment_id == assignment_id {
                return Err(Error::new(ErrorKind::NotUnique, "the pair already has a grade"));
            }
            if g.student_id > student_id || (g.student_id == student_id && g.assignment_id
                > assignment_id) {
                break ;
            }
            k = k + 1;
        }
        if score > a.maximum_score {
            return Err(
                Error::new(ErrorKind::InvalidInput, "the score exceeds the assignment's maximum"),
            );
        }
        let ghost pre = *self;
        self.grades.insert(k, pair);
        proof {
            let g1 = pre.grades@;
            let g2 = self.grades@;
            g1.insert_ensures(k as int, pair);
            assert(!has_grade(g1, student_id, assignment_id));
            assert forall|i: int, j: int|
                #![trigger g2[i], g2[j]]
                0 <= i < j < g2.len() implies grade_key_lt(g2[i], g2[j]) by {
                if (k as int) < j {
                    assert(g2[j] == g1[j - 1]);
                }
                if (k as int) < i {
                    assert(g2[i] == g1[i - 1]);
                }
                if i < k as int {
                    assert(g2[i] == g1[i]);
                }
                if j < k as int {
                    assert(g2[j] == g1[j]);
                }
            }
            assert forall|i: int|
                0 <= i < g2.len() implies match find_assignment(
                    self.assignments@,
                    (#[trigger] g2[i]).assignment_id,
                ) {
                    Some(a) => g2[i].score <= a.maximum_score && has_enrollment(
                        self.enrollments@,
                        g2[i].student_id,
                        a.class_id,
                    ),
                    None => false,
                } by {
                if i != k as int {
                    let i1: int = if i < k as int {
                        i
                    } else {
                        i - 1
                    };
                    assert(g2[i] == g1[i1]);
                }
            }
            assert(inserted_grade(old(self).grades@, self.grades@, pair)) by {
                assert(self.grades@ == old(self).grades@.insert(k as int, pair));
            }
            assert(g2[k as int] == pair);
        }
        Ok(pair)
    }

    /// Reads the grade of a (student, assignment) pair; `NotFound` if none
    /// is recorded.
    #[verifier::loop_isolation(false)]
    pub fn get_grade(&self, student_id: i64, assignment_id: i64) -> (r: Result<Grade, Error>)
        ensures
            match r {
                Ok(g) => g.student_id == student_id && g.assignment_id == assignment_id && exists|
                    i: int,
                |
                    0 <= i < self.grades@.len() && #[trigger] self.grades@[i] == g,
                Err(e) => e.kind == ErrorKind::NotFound && !has_grade(
                    self.grades@,
                    student_id,
                    assignment_id,
                ),
            },
    {
        let n = self.grades.len();
        let mut i: usize = 0;
        while i < n
            invariant
                i <= n,
                n == self.grades@.len(),
                forall|j: int|
                    0 <= j < i ==> !((#[trigger] self.grades@[j]).student_id == student_id
                        && self.grades@[j].assignment_id == assignment_id),
            decreases n - i,
        {
            let g = self.grades[i];
            if g.student_id == student_id && g.assignment_id == assignment_id {
                return Ok(g);
            }
            i = i + 1;
        }
        Err(Error::new(ErrorKind::NotFound, "the pair has no recorded grade"))
    }

    /// A snapshot of all grades, ordered by (student, assignment)
    /// ascending.
    #[verifier::loop_isolation(false)]
    pub fn get_all_grades(&self) -> (r: Vec<Grade>)
        ensures
            r@ == self.grades@,
    {
        let mut out: Vec<Grade> = Vec::new();
        let n = self.grades.len();
        let mut i: usize = 0;
        while i < n
            invariant
                i <= n,
                n == self.grades@.len(),
                out@ == self.grades@.subrange(0, i as int),
            decreases n - i,
        {
            out.push(self.grades[i]);
            proof {
                assert(out@ =~= self.grades@.subrange(0, i as int + 1));
            }
            i = i + 1;
        }
        proof {
            assert(self.grades@.subrange(0, n as int) =~= self.grades@);
        }
        out
    }

    /// Rewrites the recorded score of a (student, assignment) pair — the
    /// resubmission path.  The pair must already have a grade (`NotFound`)
    /// and the score may not exceed the assignment's maximum
    /// (`InvalidInput`).
    #[verifier::loop_isolation(false)]
    pub fn update_grade(&mut self, student_id: i64, assignment_id: i64, score: u32) -> (r: Result<
        Grade,
        Error,
    >)
        requires
            old(self).wf(),
        ensures
            final(self).wf(),
            match r {
                Ok(g) => {
                    &&& g == (Grade { student_id, assignment_id, score })
                    &&& score <= find_assignment(
                        old(self).assignments@,
                        assignment_id,
                    ).unwrap().maximum_score
                    &&& exists|i: int|
                        0 <= i < old(self).grades@.len() && (#[trigger] old(
                            self,
                        ).grades@[i]).student_id == student_id && old(
                            self,
                        ).grades@[i].assignment_id == assignment_id && final(self).grades@ == old(
                            self,
                        ).grades@.update(i, g)
                    &&& only_grades_changed(*old(self), *final(self))
                },
                Err(e) => {
                    &&& *final(self) == *old(self)
                    &&& if !has_grade(old(self).grades@, student_id, assignment_id) {
                        e.kind == ErrorKind::NotFound
                    } else {
                        e.kind == ErrorKind::InvalidInput && score > find_assignment(
                            old(self).assignments@,
                            assignment_id,
                        ).unwrap().maximum_score
                    }
                },
            },
    {
        let n = self.grades.len();
        let mut k: usize = 0;
        while k < n
            invariant
                *self == *old(self),
                k <= n,
                n == self.grades@.len(),
                forall|j: int|
                    0 <= j < k ==> !((#[trigger] self.grades@[j]).student_id == student_id
                        && self.grades@[j].assignment_id == assignment_id),
            decreases n - k,
        {
            let g = self.grades[k];
            if g.student_id == student_id && g.assignment_id == assignment_id {
                let a = match self.get_assignment(assignment_id) {
                    Ok(a) => a,
                    Err(_) => {
                        proof {
                            crate::grading::lemma_find_assignment_some(
                                self.assignments@,
                                assignment_id,
                            );
                            assert(false);
                        }
                        return Err(
                            Error::new(ErrorKind::NotFound, "no assignment with that identity"),
                        );
                    },
                };
                if score > a.maximum_score {
                    return Err(
                        Error::new(
                            ErrorKind::InvalidInput,
                            "the score exceeds the assignment's maximum",
                        ),
                    );
                }
                let stored = Grade { student_id, assignment_id, score };
                let ghost pre = *self;
                self.grades.set(k, stored);
                proof {
                    let g1 = pre.grades@;
                    let g2 = self.grades@;
                    assert forall|i: int, j: int|
                        #![trigger g2[i], g2[j]]
                        0 <= i < j < g2.len() implies grade_key_lt(g2[i], g2[j]) by {
                        assert(grade_key_lt(g1[i], g1[j]));
                    }
                    assert forall|i: int|
                        0 <= i < g2.len() implies match find_assignment(
                            self.assignments@,
                            (#[trigger] g2[i]).assignment_id,
                        ) {
                            Some(a) => g2[i].score <= a.maximum_score && has_enrollment(
                                self.enrollments@,
                                g2[i].student_id,
                                a.class_id,
                            ),
                            None => false,
                        } by {
                        if i != k as int {
                            assert(g2[i] == g1[i]);
                        } else {
                            assert(g1[k as int].student_id == student_id);
                            assert(g1[k as int].assignment_id == assignment_id);
                        }
                    }
                }
                return Ok(stored);
            }
            k = k + 1;
        }
        Err(Error::new(ErrorKind::NotFound, "the pair has no recorded grade"))
    }

    /// Deletes the grade of a (student, assignment) pair; `NotFound` if
    /// none is recorded.  Nothing depends on a grade, so deletion always
    /// succeeds on a present pair; the pair's overall grade is recomputed
    /// from what remains on the next read.
    #[verifier::loop_isolation(false)]
    pub fn delete_grade(&mut self, student_id: i64, assignment_id: i64) -> (r: Result<(), Error>)
        requires
            old(self).wf(),
        ensures
            final(self).wf(),
            match r {
                Ok(_) => {
                    &&& exists|i: int|
                        0 <= i < old(self).grades@.len() && (#[trigger] old(
                            self,
                        ).grades@[i]).student_id == student_id && old(
                            self,
                        ).grades@[i].assignment_id == assignment_id && final(self).grades@ == old(
                            self,
                        ).grades@.remove(i)
                    &&& !has_grade(final(self).grades@, student_id, assignment_id)
                    &&& only_grades_changed(*old(self), *final(self))
                },
                Err(e) => {
                    &&& *final(self) == *old(self)
                    &&& e.kind == ErrorKind::NotFound
                    &&& !has_grade(old(self).grades@, student_id, assignment_id)
                },
            },
    {
        let n = self.grades.len();
        let mut k: usize = 0;
        while k < n
            invariant
                *self == *old(self),
                k <= n,
                n == self.grades@.len(),
                forall|j: int|
                    0 <= j < k ==> !((#[trigger] self.grades@[j]).student_id == student_id
                        && self.grades@[j].assignment_id == assignment_id),
            decreases n - k,
        {
            let g = self.grades[k];
            if g.student_id == student_id && g.assignment_id == assignment_id {
                let ghost pre = *self;
                self.grades.remove(k);
                proof {
                    let g1 = pre.grades@;
                    let g2 = self.grades@;
                    assert forall|i: int, j: int|
                        #![trigger g2[i], g2[j]]
                        0 <= i < j < g2.len() implies grade_key_lt(g2[i], g2[j]) by {
                        let i1: int = if i < k { i } else { i + 1 };
                        let j1: int = if j < k { j } else { j + 1 };
                        assert(g2[i] == g1[i1]);
                        assert(g2[j] == g1[j1]);
                    }
                    assert forall|i: int|
                        0 <= i < g2.len() implies match find_assignment(
                            self.assignments@,
                            (#[trigger] g2[i]).assignment_id,
                        ) {
                            Some(a) => g2[i].score <= a.maximum_score && has_enrollment(
                                self.enrollments@,
                                g2[i].student_id,
                                a.class_id,
                            ),
                            None => false,
                        } by {
                        let i1: int = if i < k { i } else { i + 1 };
                        assert(g2[i] == g1[i1]);
                    }
                    assert forall|i: int|
                        0 <= i < g2.len() implies !((#[trigger] g2[i]).student_id == student_id
                        && g2[i].assignment_id == assignment_id) by {
                        let i1: int = if i < k { i } else { i + 1 };
                        assert(g2[i] == g1[i1]);
                        if i1 != k as int {
                            if i1 < k as int {
                                assert(grade_key_lt(g1[i1], g1[k as int]));
                            } else {
                                assert(grade_key_lt(g1[k as int], g1[i1]));
                            }
                        }
                    }
                }
                return Ok(());
            }
            k = k + 1;
        }
        Err(Error::new(ErrorKind::NotFound, "the pair has no recorded grade"))
    }

    /// The overall grade the store derives for a (student, class) pair:
    /// undefined when no grade counts towards the pair, otherwise the
    /// rounded percentage of summed scores against summed maxima and its
    /// letter.  A pure function of the store — the aggregate is never
    /// stored, so no write path to it exists.
    pub open spec fn overall_of(self, student_id: i64, class_id: i64) -> Option<OverallGrade> {
        let value_sum = score_sum(self.grades@, self.assignments@, student_id, class_id);
        let total_max = max_sum(self.grades@, self.assignments@, student_id, class_id);
        if total_max == 0 {
            None
        } else {
            let p = crate::grading::percentage_hundredths(value_sum, total_max);
            Some(
                OverallGrade {
                    student_id,
                    class_id,
                    percentage: p as u32,
                    letter_grade: crate::grading::letter_of(p),
                },
            )
        }
    }

    /// The sums the aggregation runs on: the pair's counted scores, and
    /// the maxima of those same assignments.
    #[verifier::loop_isolation(false)]
    fn pair_sums(&self, student_id: i64, class_id: i64) -> (r: (u128, u128))
        requires
            self.wf(),
        ensures
            r.0 == score_sum(self.grades@, self.assignments@, student_id, class_id),
            r.1 == max_sum(self.grades@, self.assignments@, student_id, class_id),
            r.0 <= r.1,
            r.1 < 0x1_0000_0000_0000_0000_0000_0000,
    {
        let n = self.grades.len();
        let mut value_sum: u128 = 0;
        let mut total_max: u128 = 0;
        let mut i: usize = 0;
        while i < n
            invariant
                i <= n,
                n == self.grades@.len(),
                value_sum == score_sum(
                    self.grades@.subrange(0, i as int),
                    self.assignments@,
                    student_id,
                    class_id,
                ),
                total_max == max_sum(
                    self.grades@.subrange(0, i as int),
                    self.assignments@,
                    student_id,
                    class_id,
                ),
            decreases n - i,
        {
            let ghost prefix = self.grades@.subrange(0, i as int);
            let ghost next_prefix = self.grades@.subrange(0, i as int + 1);
            proof {
                crate::grading::lemma_sum_bounds(prefix, self.assignments@, student_id, class_id);
                vstd::arithmetic::mul::lemma_mul_inequality(
                    prefix.len() as int,
                    0xFFFF_FFFF_FFFF_FFFF,
                    0x1_0000_0000,
                );
                assert(next_prefix.drop_last() =~= prefix);
                assert(next_prefix.last() == self.grades@[i as int]);
            }
            let g = self.grades[i];
            if g.student_id == student_id {
                match self.get_assignment(g.assignment_id) {
                    Ok(a) => {
                        if a.class_id == class_id {
                            value_sum = value_sum + (g.score as u128);
                            total_max = total_max + (a.maximum_score as u128);
                        }
                    },
                    Err(_) => {
                        proof {
                            if find_assignment(self.assignments@, g.assignment_id) is Some {
                                crate::grading::lemma_find_assignment_some(
                                    self.assignments@,
                                    g.assignment_id,
                                );
                            }
                        }
                    },
                }
            }
            i = i + 1;
        }
        proof {
            assert(self.grades@.subrange(0, n as int) =~= self.grades@);
            assert forall|j: int|
                0 <= j < self.grades@.len() && #[trigger] grade_counts(
                    self.grades@[j],
                    self.assignments@,
                    student_id,
                    class_id,
                ) implies self.grades@[j].score <= find_assignment(
                self.assignments@,
                self.grades@[j].assignment_id,
            ).unwrap().maximum_score by {
                assert(find_assignment(self.assignments@, self.grades@[j].assignment_id) is Some);
            }
            crate::grading::lemma_score_sum_le_max_sum(
                self.grades@,
                self.assignments@,
                student_id,
                class_id,
            );
            crate::grading::lemma_sum_bounds(
                self.grades@,
                self.assignments@,
                student_id,
                class_id,
            );
            vstd::arithmetic::mul::lemma_mul_inequality(
                self.grades@.len() as int,
                0xFFFF_FFFF_FFFF_FFFF,
                0x1_0000_0000,
            );
        }
        (value_sum, total_max)
    }

    /// Derives the overall grade of a (student, class) pair, recomputed
    /// from the current grades and assignments on every read (the lazy
    /// strategy).  The pair must be enrolled (`NotFound`); an enrolled
    /// pair with no counted grade has an undefined overall grade
    /// (`Ok(None)`), not zero percent.  The derivation itself never fails.
    pub fn overall_grade(&self, student_id: i64, class_id: i64) -> (r: Result<
        Option<OverallGrade>,
        Error,
    >)
        requires
            self.wf(),
        ensures
            match r {
                Ok(og) => has_enrollment(self.enrollments@, student_id, class_id) && og
                    == self.overall_of(student_id, class_id),
                Err(e) => e.kind == ErrorKind::NotFound && !has_enrollment(
                    self.enrollments@,
                    student_id,
                    class_id,
                ),
            },
    {
        if !self.enrollment_exists(student_id, class_id) {
            return Err(Error::new(ErrorKind::NotFound, "the pair is not enrolled"));
        }
        let sums = self.pair_sums(student_id, class_id);
        let value_sum = sums.0;
        let total_max = sums.1;
        if total_max == 0 {
            return Ok(None);
        }
        let p = crate::grading::percent_of(value_sum, total_max);
        let letter = crate::grading::letter_for(p);
        Ok(Some(OverallGrade { student_id, class_id, percentage: p, letter_grade: letter }))
    }

    /// The overall grades the store derives, one for each enrolled pair
    /// whose aggregate is defined, in enrollment-key order: the first
    /// `n` enrollments' worth.
    pub open spec fn overall_list_prefix(self, n: int) -> Seq<OverallGrade>
        decreases n,
    {
        if n <= 0 {
            Seq::empty()
        } else {
            let rest = self.overall_list_prefix(n - 1);
            match self.overall_of(
                self.enrollments@[n - 1].student_id,
                self.enrollments@[n - 1].class_id,
            ) {
                Some(og) => rest.push(og),
                None => rest,
            }
        }
    }

    /// All defined overall grades, in enrollment-key order.
    pub open spec fn overall_grades_of(self) -> Seq<OverallGrade> {
        self.overall_list_prefix(self.enrollments@.len() as int)
    }

    /// A snapshot of the derived overall grades: one row per enrolled
    /// (student, class) pair whose aggregate is defined, ordered by
    /// (student, class) ascending, each recomputed from the current grades
    /// and assignments.
    #[verifier::loop_isolation(false)]
    pub fn get_overall_grades(&self) -> (r: Vec<OverallGrade>)
        requires
            self.wf(),
        ensures
            r@ == self.overall_grades_of(),
    {
        let mut out: Vec<OverallGrade> = Vec::new();
        let n = self.enrollments.len();
        let mut i: usize = 0;
        while i < n
            invariant
                i <= n,
                n == self.enrollments@.len(),
                out@ == self.overall_list_prefix(i as int),
            decreases n - i,
        {
            let e = self.enrollments[i];
            match self.overall_grade(e.student_id, e.class_id) {
                Ok(Some(og)) => {
                    out.push(og);
                },
                Ok(None) => {},
                Err(_) => {
                    proof {
                        assert(self.enrollments@[i as int] == (StudentClass {
                            student_id: e.student_id,
                            class_id: e.class_id,
                        }));
                        assert(false);
                    }
                },
            }
            i = i + 1;
        }
        out
    }
}

/// Recomputing an overall grade twice with no intervening mutation yields
/// identical results: the aggregate is a pure function of the store's
/// grades and assignments, which is what `overall_grade` returns.
pub proof fn lemma_overall_grade_deterministic(
    gb: Gradebook,
    student_id: i64,
    class_id: i64,
    r1: Option<OverallGrade>,
    r2: Option<OverallGrade>,
)
    requires
        r1 == gb.overall_of(student_id, class_id),
        r2 == gb.overall_of(student_id, class_id),
    ensures
        r1 == r2,
{
}

/// Deleting the only counted grade of a (student, class) pair reverts the
/// pair's overall grade to undefined — not to zero percent.
pub proof fn lemma_delete_only_grade_undefined(
    pre: Gradebook,
    post: Gradebook,
    student_id: i64,
    class_id: i64,
    k: int,
)
    requires
        0 <= k < pre.grades@.len(),
        grade_counts(pre.grades@[k], pre.assignments@, student_id, class_id),
        forall|j: int|
            0 <= j < pre.grades@.len() && j != k ==> !grade_counts(
                #[trigger] pre.grades@[j],
                pre.assignments@,
                student_id,
                class_id,
            ),
        post.grades@ == pre.grades@.remove(k),
        post.assignments@ == pre.assignments@,
    ensures
        post.overall_of(student_id, class_id) is None,
{
    let g2 = post.grades@;
    assert forall|i: int|
        0 <= i < g2.len() implies !grade_counts(
        #[trigger] g2[i],
        post.assignments@,
        student_id,
        class_id,
    ) by {
        let i1: int = if i < k {
            i
        } else {
            i + 1
        };
        assert(g2[i] == pre.grades@[i1]);
    }
    crate::grading::lemma_sums_zero_when_none(g2, post.assignments@, student_id, class_id);
}

/// An enrolled pair's overall grade is undefined exactly when no grade
/// counts towards it: scores drive the aggregate, never the other way
/// round.
pub proof fn lemma_undefined_iff_no_counted_grade(gb: Gradebook, student_id: i64, class_id: i64)
    requires
        gb.wf(),
    ensures
        gb.overall_of(student_id, class_id) is None <==> forall|i: int|
            0 <= i < gb.grades@.len() ==> !grade_counts(
                #[trigger] gb.grades@[i],
                gb.assignments@,
                student_id,
                class_id,
            ),
{
    assert forall|i: int|
        0 <= i < gb.grades@.len() && #[trigger] grade_counts(
            gb.grades@[i],
            gb.assignments@,
            student_id,
            class_id,
        ) implies find_assignment(
        gb.assignments@,
        gb.grades@[i].assignment_id,
    ).unwrap().maximum_score >= 1 by {
        crate::grading::lemma_find_assignment_some(gb.assignments@, gb.grades@[i].assignment_id);
        let w = choose|j: int|
            0 <= j < gb.assignments@.len() && #[trigger] gb.assignments@[j].id
                == gb.grades@[i].assignment_id && gb.assignments@[j] == find_assignment(
                gb.assignments@,
                gb.grades@[i].assignment_id,
            ).unwrap();
        assert(gb.assignments@[w].maximum_score >= 1);
    }
    crate::grading::lemma_max_sum_zero(gb.grades@, gb.assignments@, student_id, class_id);
}

} // verus!
