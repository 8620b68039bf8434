//! The aggregation engine: the pure rules that derive an overall percentage
//! and letter grade for a (student, class) pair from the student's scored
//! assignments in the class.
//!
//! A grade counts towards the pair exactly when it belongs to the student
//! and its assignment belongs to the class.  The percentage is
//! `100 x (sum of counted scores) / (sum of those assignments' maxima)`,
//! over the same set of grades on both sides: an assignment with no
//! recorded grade contributes to neither sum.  The result is reported in
//! hundredths of a percent, rounded to nearest (half away from zero).  The
//! letter comes from a fixed, total, non-overlapping threshold table.

use vstd::arithmetic::div_mod::lemma_multiply_divide_lt;
use vstd::arithmetic::mul::lemma_mul_inequality;
use vstd::prelude::*;

use crate::models::{Assignment, Grade, Letter};

verus! {

/// Least percentage (hundredths of a percent) earning an A.
pub const A_MIN: u32 = 9000;

/// Least percentage earning a B.
pub const B_MIN: u32 = 8000;

/// Least percentage earning a C.
pub const C_MIN: u32 = 7000;

/// Least percentage earning a D; anything lower is an F.
pub const D_MIN: u32 = 6000;

/// The first assignment in `assignments` with identity `aid`, if any.
pub open spec fn find_assignment(assignments: Seq<Assignment>, aid: i64) -> Option<Assignment>
    decreases assignments.len(),
{
    if assignments.len() == 0 {
        None
    } else if assignments.first().id == aid {
        Some(assignments.first())
    } else {
        find_assignment(assignments.drop_first(), aid)
    }
}

/// A linear scan that stops at the first hit agrees with `find_assignment`.
pub proof fn lemma_find_assignment_first(assignments: Seq<Assignment>, aid: i64, w: int)
    requires
        0 <= w < assignments.len(),
        assignments[w].id == aid,
        forall|j: int| 0 <= j < w ==> (#[trigger] assignments[j]).id != aid,
    ensures
        find_assignment(assignments, aid) == Some(assignments[w]),
    decreases w,
{
    if w > 0 {
        let rest = assignments.drop_first();
        assert(forall|j: int| 0 <= j < w - 1 ==> (#[trigger] rest[j]).id != aid);
        lemma_find_assignment_first(rest, aid, w - 1);
    }
}

/// A scan that finds no hit agrees with `find_assignment`.
pub proof fn lemma_find_assignment_absent(assignments: Seq<Assignment>, aid: i64)
    requires
        forall|j: int| 0 <= j < assignments.len() ==> (#[trigger] assignments[j]).id != aid,
    ensures
        find_assignment(assignments, aid) is None,
    decreases assignments.len(),
{
    if assignments.len() > 0 {
        let rest = assignments.drop_first();
        assert(forall|j: int| 0 <= j < rest.len() ==> (#[trigger] rest[j]).id != aid);
        lemma_find_assignment_absent(rest, aid);
    }
}

/// Replacing the one assignment of an identity changes only that
/// identity's lookup, which now finds the replacement.
pub proof fn lemma_find_assignment_update(s: Seq<Assignment>, k: int, x: Assignment, aid: i64)
    requires
        0 <= k < s.len(),
        x.id == s[k].id,
        forall|j: int| 0 <= j < s.len() && j != k ==> (#[trigger] s[j]).id != s[k].id,
    ensures
        aid != x.id ==> find_assignment(s.update(k, x), aid) == find_assignment(s, aid),
        aid == x.id ==> find_assignment(s.update(k, x), aid) == Some(x),
    decreases s.len(),
{
    let s2 = s.update(k, x);
    if k == 0 {
        if aid != x.id {
            assert(s2.drop_first() =~= s.drop_first());
        }
    } else {
        assert(s2.first() == s.first());
        if s.first().id != aid {
            assert(s2.drop_first() =~= s.drop_first().update(k - 1, x));
            assert(forall|j: int|
                0 <= j < s.drop_first().len() && j != k - 1 ==> (#[trigger] s.drop_first()[j]).id
                    != s.drop_first()[k - 1].id);
            lemma_find_assignment_update(s.drop_first(), k - 1, x, aid);
        }
    }
}

/// Removing an assignment of another identity changes no lookup of `aid`.
pub proof fn lemma_find_assignment_remove(s: Seq<Assignment>, k: int, aid: i64)
    requires
        0 <= k < s.len(),
        s[k].id != aid,
    ensures
        find_assignment(s.remove(k), aid) == find_assignment(s, aid),
    decreases s.len(),
{
    let s2 = s.remove(k);
    if k == 0 {
        assert(s2 =~= s.drop_first());
    } else {
        assert(s2.first() == s.first());
        if s.first().id != aid {
            assert(s2.drop_first() =~= s.drop_first().remove(k - 1));
            lemma_find_assignment_remove(s.drop_first(), k - 1, aid);
        }
    }
}

/// A successful lookup returns an assignment that is in the table and
/// carries the looked-up identity.
pub proof fn lemma_find_assignment_some(s: Seq<Assignment>, aid: i64)
    requires
        find_assignment(s, aid) is Some,
    ensures
        exists|i: int|
            0 <= i < s.len() && #[trigger] s[i].id == aid && s[i] == find_assignment(
                s,
                aid,
            ).unwrap(),
        find_assignment(s, aid).unwrap().id == aid,
    decreases s.len(),
{
    if s.len() > 0 {
        if s.first().id == aid {
            assert(s[0].id == aid);
        } else {
            lemma_find_assignment_some(s.drop_first(), aid);
            let w = choose|i: int|
                0 <= i < s.drop_first().len() && #[trigger] s.drop_first()[i].id == aid
                    && s.drop_first()[i] == find_assignment(s.drop_first(), aid).unwrap();
            assert(s[w + 1].id == aid);
            assert(s[w + 1] == find_assignment(s, aid).unwrap());
        }
    }
}

/// With no counted grade at all, both sums are zero.
pub proof fn lemma_sums_zero_when_none(
    grades: Seq<Grade>,
    assignments: Seq<Assignment>,
    student_id: i64,
    class_id: i64,
)
    requires
        forall|i: int|
            0 <= i < grades.len() ==> !grade_counts(
                #[trigger] grades[i],
                assignments,
                student_id,
                class_id,
            ),
    ensures
        score_sum(grades, assignments, student_id, class_id) == 0,
        max_sum(grades, assignments, student_id, class_id) == 0,
    decreases grades.len(),
{
    if grades.len() > 0 {
        assert(forall|i: int|
            0 <= i < grades.drop_last().len() ==> grades.drop_last()[i] == grades[i]);
        lemma_sums_zero_when_none(grades.drop_last(), assignments, student_id, class_id);
        assert(grades[grades.len() - 1] == grades.last());
    }
}

/// Whether `g` counts towards the overall grade of `(student_id, class_id)`:
/// it is the student's grade and its assignment belongs to the class.
pub open spec fn grade_counts(
    g: Grade,
    assignments: Seq<Assignment>,
    student_id: i64,
    class_id: i64,
) -> bool {
    g.student_id == student_id && match find_assignment(assignments, g.assignment_id) {
        Some(a) => a.class_id == class_id,
        None => false,
    }
}

/// Sum of the scores of the grades in `grades` that count towards
/// `(student_id, class_id)`.
pub open spec fn score_sum(
    grades: Seq<Grade>,
    assignments: Seq<Assignment>,
    student_id: i64,
    class_id: i64,
) -> nat
    decreases grades.len(),
{
    if grades.len() == 0 {
        0
    } else {
        score_sum(grades.drop_last(), assignments, student_id, class_id) + if grade_counts(
            grades.last(),
            assignments,
            student_id,
            class_id,
        ) {
            grades.last().score as nat
        } else {
            0
        }
    }
}

/// Sum of the maxima of the assignments of those same grades: exactly the
/// assignments with a recorded counted grade, each once per such grade.
pub open spec fn max_sum(
    grades: Seq<Grade>,
    assignments: Seq<Assignment>,
    student_id: i64,
    class_id: i64,
) -> nat
    decreases grades.len(),
{
    if grades.len() == 0 {
        0
    } else {
        max_sum(grades.drop_last(), assignments, student_id, class_id) + if grade_counts(
            grades.last(),
            assignments,
            student_id,
            class_id,
        ) {
            find_assignment(assignments, grades.last().assignment_id).unwrap().maximum_score as nat
        } else {
            0
        }
    }
}

/// The overall percentage, in hundredths of a percent, of a score sum
/// `value_sum` against a maximum sum `total_max`: `100 x value_sum /
/// total_max` percent, rounded to the nearest hundredth, half away from
/// zero.
pub open spec fn percentage_hundredths(value_sum: nat, total_max: nat) -> nat
    recommends
        total_max > 0,
{
    (20000 * value_sum + total_max) / (2 * total_max)
}

/// The letter grade of a percentage given in hundredths of a percent.
pub open spec fn letter_of(p: nat) -> Letter {
    if p >= A_MIN {
        Letter::A
    } else if p >= B_MIN {
        Letter::B
    } else if p >= C_MIN {
        Letter::C
    } else if p >= D_MIN {
        Letter::D
    } else {
        Letter::F
    }
}

/// The letter grade of a percentage in hundredths of a percent.
pub fn letter_for(p: u32) -> (r: Letter)
    ensures
        r == letter_of(p as nat),
{
    if p >= A_MIN {
        Letter::A
    } else if p >= B_MIN {
        Letter::B
    } else if p >= C_MIN {
        Letter::C
    } else if p >= D_MIN {
        Letter::D
    } else {
        Letter::F
    }
}

/// The thresholds are total and non-overlapping: every percentage gets
/// exactly one letter, and the letter says exactly which band the
/// percentage lies in.
pub proof fn lemma_letter_total(p: nat)
    ensures
        letter_of(p) == Letter::A <==> p >= A_MIN,
        letter_of(p) == Letter::B <==> B_MIN <= p < A_MIN,
        letter_of(p) == Letter::C <==> C_MIN <= p < B_MIN,
        letter_of(p) == Letter::D <==> D_MIN <= p < C_MIN,
        letter_of(p) == Letter::F <==> p < D_MIN,
{
}

/// Computes `percentage_hundredths` on machine integers.  The bounds on
/// `total_max` are what the record store guarantees of any sum of recorded
/// maxima; a score sum never exceeds the matching maximum sum.
pub fn percent_of(value_sum: u128, total_max: u128) -> (r: u32)
    requires
        1 <= total_max,
        value_sum <= total_max,
        total_max < 0x1_0000_0000_0000_0000_0000_0000,
    ensures
        r == percentage_hundredths(value_sum as nat, total_max as nat),
        r <= 10000,
{
    proof {
        lemma_percentage_le_10000(value_sum as nat, total_max as nat);
    }
    ((20000 * value_sum + total_max) / (2 * total_max)) as u32
}

/// A percentage of a score sum that is at most its maximum sum never
/// exceeds one hundred percent.
pub proof fn lemma_percentage_le_10000(value_sum: nat, total_max: nat)
    requires
        1 <= total_max,
        value_sum <= total_max,
    ensures
        percentage_hundredths(value_sum, total_max) <= 10000,
{
    let n = (20000 * value_sum + total_max) as int;
    let d = (2 * total_max) as int;
    assert(n < d * 10001) by {
        lemma_mul_inequality(value_sum as int, total_max as int, 20000);
    }
    lemma_multiply_divide_lt(n, d, 10001);
}

/// The reported percentage is `100 x value_sum / total_max` percent stated
/// in hundredths and rounded to nearest, half up: it sits within half a
/// hundredth of the exact ratio, on the side the rounding rule picks.
pub proof fn lemma_percentage_nearest(value_sum: nat, total_max: nat)
    requires
        total_max >= 1,
    ensures
        2 * total_max * percentage_hundredths(value_sum, total_max) <= 20000 * value_sum
            + total_max,
        20000 * value_sum + total_max < 2 * total_max * (percentage_hundredths(
            value_sum,
            total_max,
        ) + 1),
{
    let n = (20000 * value_sum + total_max) as int;
    let d = (2 * total_max) as int;
    vstd::arithmetic::div_mod::lemma_fundamental_div_mod(n, d);
    vstd::arithmetic::div_mod::lemma_mod_bound(n, d);
    assert(d * (n / d) + d == d * (n / d + 1)) by (nonlinear_arith);
}

/// The maximum sum is zero exactly when no grade counts towards the pair:
/// with no scored assignment the overall grade is undefined, and any scored
/// assignment has a positive maximum.
pub proof fn lemma_max_sum_zero(
    grades: Seq<Grade>,
    assignments: Seq<Assignment>,
    student_id: i64,
    class_id: i64,
)
    requires
        forall|i: int|
            0 <= i < grades.len() && #[trigger] grade_counts(
                grades[i],
                assignments,
                student_id,
                class_id,
            ) ==> find_assignment(assignments, grades[i].assignment_id).unwrap().maximum_score >= 1,
    ensures
        max_sum(grades, assignments, student_id, class_id) == 0 <==> forall|i: int|
            0 <= i < grades.len() ==> !grade_counts(grades[i], assignments, student_id, class_id),
    decreases grades.len(),
{
    if grades.len() > 0 {
        assert(forall|i: int|
            0 <= i < grades.drop_last().len() ==> grades.drop_last()[i] == grades[i]);
        lemma_max_sum_zero(grades.drop_last(), assignments, student_id, class_id);
        if grade_counts(grades.last(), assignments, student_id, class_id) {
            assert(grades[grades.len() - 1] == grades.last());
        }
    }
}

/// Both sums are bounded by the number of grades times the largest
/// fixed-point value a single grade or maximum can carry.
pub proof fn lemma_sum_bounds(
    grades: Seq<Grade>,
    assignments: Seq<Assignment>,
    student_id: i64,
    class_id: i64,
)
    ensures
        score_sum(grades, assignments, student_id, class_id) <= grades.len() * 0x1_0000_0000,
        max_sum(grades, assignments, student_id, class_id) <= grades.len() * 0x1_0000_0000,
    decreases grades.len(),
{
    if grades.len() > 0 {
        lemma_sum_bounds(grades.drop_last(), assignments, student_id, class_id);
        assert((grades.len() - 1) * 0x1_0000_0000 + 0x1_0000_0000 == grades.len()
            * 0x1_0000_0000) by (nonlinear_arith);
    }
}

/// Each counted score is at most its assignment's maximum, so the score sum
/// is at most the maximum sum.
pub proof fn lemma_score_sum_le_max_sum(
    grades: Seq<Grade>,
    assignments: Seq<Assignment>,
    student_id: i64,
    class_id: i64,
)
    requires
        forall|i: int|
            0 <= i < grades.len() && #[trigger] grade_counts(
                grades[i],
                assignments,
                student_id,
                class_id,
            ) ==> grades[i].score <= find_assignment(
                assignments,
                grades[i].assignment_id,
            ).unwrap().maximum_score,
    ensures
        score_sum(grades, assignments, student_id, class_id) <= max_sum(
            grades,
            assignments,
            student_id,
            class_id,
        ),
    decreases grades.len(),
{
    if grades.len() > 0 {
        assert(forall|i: int|
            0 <= i < grades.drop_last().len() ==> grades.drop_last()[i] == grades[i]);
        lemma_score_sum_le_max_sum(grades.drop_last(), assignments, student_id, class_id);
        if grade_counts(grades.last(), assignments, student_id, class_id) {
            assert(grades[grades.len() - 1] == grades.last());
        }
    }
}

/// An assignment nobody has a recorded grade for is excluded from the
/// aggregate outright: adding it to the table moves neither the score sum
/// nor the maximum sum, for every pair.  (Together with the definitions
/// above: the percentage ranges over exactly the assignments with a
/// recorded score.)
pub proof fn lemma_ungraded_assignment_excluded(
    grades: Seq<Grade>,
    assignments: Seq<Assignment>,
    fresh: Assignment,
    student_id: i64,
    class_id: i64,
)
    requires
        forall|i: int| 0 <= i < grades.len() ==> #[trigger] grades[i].assignment_id != fresh.id,
    ensures
        score_sum(grades, assignments.push(fresh), student_id, class_id) == score_sum(
            grades,
            assignments,
            student_id,
            class_id,
        ),
        max_sum(grades, assignments.push(fresh), student_id, class_id) == max_sum(
            grades,
            assignments,
            student_id,
            class_id,
        ),
    decreases grades.len(),
{
    if grades.len() > 0 {
        assert(forall|i: int|
            0 <= i < grades.drop_last().len() ==> grades.drop_last()[i] == grades[i]);
        lemma_ungraded_assignment_excluded(
            grades.drop_last(),
            assignments,
            fresh,
            student_id,
            class_id,
        );
        assert(grades[grades.len() - 1] == grades.last());
        lemma_find_assignment_push(assignments, fresh, grades.last().assignment_id);
    }
}

/// Appending an assignment changes no lookup of another identity, and a
/// lookup of its own identity that previously failed now finds it.
pub proof fn lemma_find_assignment_push(assignments: Seq<Assignment>, fresh: Assignment, aid: i64)
    ensures
        aid != fresh.id ==> find_assignment(assignments.push(fresh), aid) == find_assignment(
            assignments,
            aid,
        ),
        aid == fresh.id && find_assignment(assignments, aid) is None ==> find_assignment(
            assignments.push(fresh),
            aid,
        ) == Some(fresh),
        aid == fresh.id && find_assignment(assignments, aid) is Some ==> find_assignment(
            assignments.push(fresh),
            aid,
        ) == find_assignment(assignments, aid),
    decreases assignments.len(),
{
    let pushed = assignments.push(fresh);
    if assignments.len() == 0 {
        assert(pushed.first() == fresh);
        assert(pushed.drop_first() =~= Seq::<Assignment>::empty());
        assert(find_assignment(assignments, aid) is None);
        if aid == fresh.id {
            assert(find_assignment(pushed, aid) == Some(fresh));
        } else {
            assert(find_assignment(pushed.drop_first(), aid) is None);
            assert(find_assignment(pushed, aid) is None);
        }
    } else {
        assert(pushed.first() == assignments.first());
        assert(pushed.drop_first() =~= assignments.drop_first().push(fresh));
        lemma_find_assignment_push(assignments.drop_first(), fresh, aid);
        if assignments.first().id == aid {
            assert(find_assignment(pushed, aid) == Some(assignments.first()));
            assert(find_assignment(assignments, aid) == Some(assignments.first()));
        } else {
            assert(find_assignment(pushed, aid) == find_assignment(
                assignments.drop_first().push(fresh),
                aid,
            ));
            assert(find_assignment(assignments, aid) == find_assignment(
                assignments.drop_first(),
                aid,
            ));
        }
    }
}

} // verus!
