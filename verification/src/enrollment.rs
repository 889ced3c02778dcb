//! Enrollments of students in courses.
//!
//! The store is a plain append-only log with one removal operation: the same
//! student may be enrolled in the same course any number of times, and a
//! dropout removes every such entry at once.

use crate::retain::{
    lemma_filter_all, lemma_filter_positions, lemma_sweep_end, lemma_sweep_start,
    lemma_sweep_step, swept,
};
use vstd::prelude::*;

verus! {

/// A record that links a student to a course.
///
/// The course id is not checked against any course store.
#[derive(Debug, PartialEq, Eq)]
pub struct Enrollment {
    /// The identity of the student, as text. It is compared exactly.
    pub student_principal: String,
    /// The id of the course.
    pub course_id: u64,
}

/// What an [`Enrollment`] stands for: the student's identity as a sequence of
/// characters, and the course id.
pub struct EnrollmentView {
    pub student_principal: Seq<char>,
    pub course_id: u64,
}

impl View for Enrollment {
    type V = EnrollmentView;

    open spec fn view(&self) -> EnrollmentView {
        EnrollmentView { student_principal: self.student_principal@, course_id: self.course_id }
    }
}

impl DeepView for Enrollment {
    type V = EnrollmentView;

    open spec fn deep_view(&self) -> EnrollmentView {
        self@
    }
}

impl Clone for Enrollment {
    fn clone(&self) -> (copy: Self)
        ensures
            copy == *self,
    {
        Enrollment { student_principal: self.student_principal.clone(), course_id: self.course_id }
    }
}

/// Whether `e` enrolls `student` in the course `course_id`.
pub open spec fn is_pair(e: EnrollmentView, student: Seq<char>, course_id: u64) -> bool {
    e.student_principal == student && e.course_id == course_id
}

/// The entries that a dropout of `student` from `course_id` leaves in place:
/// all but those of exactly this pair.
pub open spec fn other_pair(student: Seq<char>, course_id: u64) -> spec_fn(EnrollmentView) -> bool {
    |e: EnrollmentView| !is_pair(e, student, course_id)
}

/// `entries` after `student` has dropped out of `course_id`: every entry of
/// the pair is gone, the others keep their order.
pub open spec fn after_dropout(
    entries: Seq<EnrollmentView>,
    student: Seq<char>,
    course_id: u64,
) -> Seq<EnrollmentView> {
    entries.filter(other_pair(student, course_id))
}

/// The entries that belong to `student`, whatever the course.
pub open spec fn of_student(student: Seq<char>) -> spec_fn(EnrollmentView) -> bool {
    |e: EnrollmentView| e.student_principal == student
}

/// The enrollments of `student` among `entries`, in the order of `entries`.
pub open spec fn enrollments_of(entries: Seq<EnrollmentView>, student: Seq<char>) -> Seq<
    EnrollmentView,
> {
    entries.filter(of_student(student))
}

/// All enrollments, oldest first.
pub struct EnrollmentStore {
    entries: Vec<Enrollment>,
}

impl View for EnrollmentStore {
    type V = Seq<EnrollmentView>;

    closed spec fn view(&self) -> Seq<EnrollmentView> {
        self.entries.deep_view()
    }
}

impl EnrollmentStore {
    /// A store without enrollments.
    pub fn new() -> (store: Self)
        ensures
            store@ == Seq::<EnrollmentView>::empty(),
    {
        let store = EnrollmentStore { entries: Vec::new() };
        assert(store@ =~= Seq::<EnrollmentView>::empty());
        store
    }

    /// A store that holds the given enrollments, in their order: what a
    /// listing has returned can be put back as it was.
    pub fn restore(entries: Vec<Enrollment>) -> (store: Self)
        ensures
            store@ == entries.deep_view(),
    {
        EnrollmentStore { entries }
    }

    /// Enrolls a student in a course. The entry is appended without looking
    /// for an earlier one of the same pair, so a pair can be listed more than
    /// once.
    pub fn enroll_student(&mut self, student_principal: String, course_id: u64)
        ensures
            final(self)@ == old(self)@.push(
                EnrollmentView { student_principal: student_principal@, course_id },
            ),
    {
        let ghost added = EnrollmentView { student_principal: student_principal@, course_id };
        self.entries.push(Enrollment { student_principal, course_id });
        assert(self@ =~= old(self)@.push(added));
    }

    /// Removes every enrollment of the student in the course, however many
    /// there are, and nothing else. Without such an entry the store stays as
    /// it is.
    pub fn dropout_student(&mut self, student_principal: String, course_id: u64)
        ensures
            final(self)@ == after_dropout(old(self)@, student_principal@, course_id),
            forall|i: int|
                0 <= i < final(self)@.len() ==> !is_pair(
                    #[trigger] final(self)@[i],
                    student_principal@,
                    course_id,
                ),
    {
        let ghost stay = other_pair(student_principal@, course_id);
        // `seen` counts the entries of the old store that were looked at.
        let ghost mut seen: int = 0;
        let mut i: usize = 0;
        proof {
            lemma_sweep_start(self@, stay);
        }
        while i < self.entries.len()
            invariant
                stay == other_pair(student_principal@, course_id),
                swept(old(self)@, self@, seen, i as int, stay),
            decreases self.entries.len() - i,
        {
            let ghost before = self@;
            proof {
                lemma_sweep_step(old(self)@, before, seen, i as int, stay);
                seen = seen + 1;
            }
            if self.entries[i].student_principal == student_principal && self.entries[i].course_id
                == course_id {
                self.entries.remove(i);
                assert(self@ =~= before.remove(i as int));
            } else {
                i += 1;
            }
        }
        proof {
            lemma_sweep_end(old(self)@, self@, seen, i as int, stay);
            assert forall|k: int| 0 <= k < self@.len() implies !is_pair(
                #[trigger] self@[k],
                student_principal@,
                course_id,
            ) by {
                old(self)@.lemma_filter_pred(stay, k);
            }
        }
    }

    /// A copy of all enrollments, oldest first.
    pub fn get_enrollments(&self) -> (all: Vec<Enrollment>)
        ensures
            all.deep_view() == self@,
            all.len() == self@.len(),
            forall|i: int| 0 <= i < all.len() ==> (#[trigger] all[i])@ == self@[i],
    {
        let all = self.entries.clone();
        assert(all@ =~= self.entries@);
        all
    }

    /// The enrollments of one student, oldest first. The student's identity
    /// is matched exactly, character by character.
    pub fn get_enrollments_by_student(&self, student_principal: String) -> (found: Vec<Enrollment>)
        ensures
            found.deep_view() == enrollments_of(self@, student_principal@),
            forall|i: int|
                0 <= i < found.len() ==> (#[trigger] found[i]).student_principal@
                    == student_principal@,
    {
        let mut found: Vec<Enrollment> = Vec::new();
        let mut i: usize = 0;
        proof {
            reveal(Seq::filter);
            assert(self@.take(0) =~= Seq::<EnrollmentView>::empty());
            assert(found.deep_view() =~= Seq::<EnrollmentView>::empty());
        }
        while i < self.entries.len()
            invariant
                i <= self.entries.len(),
                found.deep_view() == enrollments_of(self@.take(i as int), student_principal@),
            decreases self.entries.len() - i,
        {
            let entry = &self.entries[i];
            let ghost before = found.deep_view();
            if entry.student_principal == student_principal {
                found.push(entry.clone());
                assert(found.deep_view() =~= before.push(entry@));
            }
            proof {
                assert(self@.take(i as int + 1) =~= self@.take(i as int).push(entry@));
                self@.take(i as int).lemma_filter_push(entry@, of_student(student_principal@));
            }
            i += 1;
        }
        proof {
            assert(self@.take(i as int) =~= self@);
            assert forall|k: int| 0 <= k < found.len() implies (
            #[trigger] found[k]).student_principal@ == student_principal@ by {
                self@.lemma_filter_pred(of_student(student_principal@), k);
                assert(found.deep_view()[k] == found[k]@);
            }
        }
        found
    }
}

/// A dropout removes every copy. After a student has been enrolled in a
/// course twice and has then dropped out of it, the store holds no entry of
/// the pair: it is what the dropout alone would have left.
pub proof fn lemma_dropout_removes_every_copy(
    entries: Seq<EnrollmentView>,
    student: Seq<char>,
    course_id: u64,
)
    ensures
        ({
            let enrolled = EnrollmentView { student_principal: student, course_id };
            let twice = entries.push(enrolled).push(enrolled);
            let left = after_dropout(twice, student, course_id);
            &&& left == after_dropout(entries, student, course_id)
            &&& forall|i: int|
                0 <= i < left.len() ==> !is_pair(#[trigger] left[i], student, course_id)
        }),
{
    let stay = other_pair(student, course_id);
    let enrolled = EnrollmentView { student_principal: student, course_id };
    let twice = entries.push(enrolled).push(enrolled);
    let left = after_dropout(twice, student, course_id);
    entries.lemma_filter_push(enrolled, stay);
    entries.push(enrolled).lemma_filter_push(enrolled, stay);
    assert forall|i: int| 0 <= i < left.len() implies !is_pair(
        #[trigger] left[i],
        student,
        course_id,
    ) by {
        twice.lemma_filter_pred(stay, i);
    }
}

/// What a dropout leaves. The result gives, for each entry that is left, its
/// position in `entries`. The positions rise, so the entries that are left
/// keep their order; none of them is of the pair; and every entry of another
/// pair is among them.
pub proof fn lemma_dropout_keeps_the_others(
    entries: Seq<EnrollmentView>,
    student: Seq<char>,
    course_id: u64,
) -> (at: Seq<int>)
    ensures
        at.len() == after_dropout(entries, student, course_id).len(),
        forall|k: int|
            0 <= k < at.len() ==> {
                &&& 0 <= #[trigger] at[k] < entries.len()
                &&& entries[at[k]] == after_dropout(entries, student, course_id)[k]
                &&& !is_pair(entries[at[k]], student, course_id)
            },
        forall|k: int, l: int| 0 <= k < l < at.len() ==> #[trigger] at[k] < #[trigger] at[l],
        forall|i: int|
            0 <= i < entries.len() && !is_pair(entries[i], student, course_id)
                ==> #[trigger] at.contains(i),
{
    lemma_filter_positions(entries, other_pair(student, course_id))
}

/// What the listing of one student holds. The result gives, for each entry
/// of `enrollments_of(entries, student)`, its position in `entries`. The
/// positions rise, so the student's entries come in the order in which they
/// were made; each of them names exactly this student; and every entry of the
/// student is among them.
pub proof fn lemma_enrollments_of_in_order(
    entries: Seq<EnrollmentView>,
    student: Seq<char>,
) -> (at: Seq<int>)
    ensures
        at.len() == enrollments_of(entries, student).len(),
        forall|k: int|
            0 <= k < at.len() ==> {
                &&& 0 <= #[trigger] at[k] < entries.len()
                &&& entries[at[k]] == enrollments_of(entries, student)[k]
                &&& entries[at[k]].student_principal == student
            },
        forall|k: int, l: int| 0 <= k < l < at.len() ==> #[trigger] at[k] < #[trigger] at[l],
        forall|i: int|
            0 <= i < entries.len() && entries[i].student_principal == student
                ==> #[trigger] at.contains(i),
{
    lemma_filter_positions(entries, of_student(student))
}

/// A dropout of a pair that is not enrolled changes nothing.
pub proof fn lemma_dropout_of_unknown_pair(
    entries: Seq<EnrollmentView>,
    student: Seq<char>,
    course_id: u64,
)
    requires
        forall|i: int|
            0 <= i < entries.len() ==> !is_pair(#[trigger] entries[i], student, course_id),
    ensures
        after_dropout(entries, student, course_id) == entries,
{
    assert forall|i: int| 0 <= i < entries.len() implies other_pair(student, course_id)(
        #[trigger] entries[i],
    ) by {}
    lemma_filter_all(entries, other_pair(student, course_id));
}

} // verus!
