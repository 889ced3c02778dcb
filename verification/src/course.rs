//! Courses on offer.
//!
//! The store only grows: a course, once created, is never changed or removed.

use crate::clock::host_time;
use vstd::prelude::*;

verus! {

/// A proposed or offered class.
#[derive(Debug, PartialEq, Eq)]
pub struct Course {
    /// The key of the course: the host's time at its creation, or the id
    /// under which it was created. The store does not compare ids, so they
    /// differ from one another as far as those who hand them out see to it.
    pub id: u64,
    pub title: String,
    pub description: String,
}

/// What a [`Course`] stands for: its id, and its title and description as
/// sequences of characters.
pub struct CourseView {
    pub id: u64,
    pub title: Seq<char>,
    pub description: Seq<char>,
}

impl View for Course {
    type V = CourseView;

    open spec fn view(&self) -> CourseView {
        CourseView { id: self.id, title: self.title@, description: self.description@ }
    }
}

impl DeepView for Course {
    type V = CourseView;

    open spec fn deep_view(&self) -> CourseView {
        self@
    }
}

impl Clone for Course {
    fn clone(&self) -> (copy: Self)
        ensures
            copy == *self,
    {
        Course {
            id: self.id,
            title: self.title.clone(),
            description: self.description.clone(),
        }
    }
}

/// Whether some course in `courses` has the id `id`.
pub open spec fn has_course_id(courses: Seq<CourseView>, id: u64) -> bool {
    exists|i: int| 0 <= i < courses.len() && (#[trigger] courses[i]).id == id
}

/// Whether no two courses in `courses` share an id.
pub open spec fn course_ids_differ(courses: Seq<CourseView>) -> bool {
    forall|i: int, j: int|
        0 <= i < j < courses.len() ==> (#[trigger] courses[i]).id != (#[trigger] courses[j]).id
}

/// All courses, oldest first.
pub struct CourseStore {
    courses: Vec<Course>,
}

impl View for CourseStore {
    type V = Seq<CourseView>;

    closed spec fn view(&self) -> Seq<CourseView> {
        self.courses.deep_view()
    }
}

impl CourseStore {
    /// A store without courses.
    pub fn new() -> (store: Self)
        ensures
            store@ == Seq::<CourseView>::empty(),
    {
        let store = CourseStore { courses: Vec::new() };
        assert(store@ =~= Seq::<CourseView>::empty());
        store
    }

    /// A store that holds the given courses, in their order: what a listing
    /// has returned can be put back as it was.
    pub fn restore(courses: Vec<Course>) -> (store: Self)
        ensures
            store@ == courses.deep_view(),
    {
        CourseStore { courses }
    }

    /// Creates a course, appends it, and returns a copy of it. The id of the
    /// course is the host's time at the call. Any title and description are
    /// taken, empty ones too.
    pub fn create_course(&mut self, title: String, description: String) -> (created: Course)
        ensures
            created.title@ == title@,
            created.description@ == description@,
            final(self)@ == old(self)@.push(created@),
    {
        let id = host_time();
        self.create_course_with_id(id, title, description)
    }

    /// Creates a course under the given id, appends it, and returns a copy of
    /// it. Any title and description are taken, empty ones too, and the id is
    /// not compared with those in the store.
    pub fn create_course_with_id(
        &mut self,
        id: u64,
        title: String,
        description: String,
    ) -> (created: Course)
        ensures
            created@ == (CourseView { id, title: title@, description: description@ }),
            final(self)@ == old(self)@.push(created@),
    {
        let course = Course { id, title, description };
        let created = course.clone();
        self.courses.push(course);
        assert(self@ =~= old(self)@.push(created@));
        created
    }

    /// A copy of all courses, oldest first.
    pub fn get_courses(&self) -> (all: Vec<Course>)
        ensures
            all.deep_view() == self@,
            all.len() == self@.len(),
            forall|i: int| 0 <= i < all.len() ==> (#[trigger] all[i])@ == self@[i],
    {
        let all = self.courses.clone();
        assert(all@ =~= self.courses@);
        all
    }
}

/// A course created under an id that is not zero and not yet in use is the
/// one course with that id in the new listing: it stands last, with the title
/// and description that were given, behind the earlier courses, which are all
/// still there, unchanged and in their order. If the ids differed before, they
/// still do.
pub proof fn lemma_created_course_is_listed_once(courses: Seq<CourseView>, created: CourseView)
    requires
        created.id != 0,
        !has_course_id(courses, created.id),
    ensures
        ({
            let listed = courses.push(created);
            &&& listed.len() == courses.len() + 1
            &&& listed.take(courses.len() as int) == courses
            &&& listed.last() == created
            &&& listed.last().id != 0
            &&& forall|i: int|
                0 <= i < listed.len() && (#[trigger] listed[i]).id == created.id ==> i
                    == courses.len()
            &&& course_ids_differ(courses) ==> course_ids_differ(listed)
        }),
{
    let listed = courses.push(created);
    assert(listed.take(courses.len() as int) =~= courses);
    assert forall|i: int| 0 <= i < listed.len() && (#[trigger] listed[i]).id == created.id implies i
        == courses.len() by {
        if i < courses.len() {
            assert(courses[i].id == created.id);
        }
    }
    if course_ids_differ(courses) {
        assert forall|i: int, j: int| 0 <= i < j < listed.len() implies (
        #[trigger] listed[i]).id != (#[trigger] listed[j]).id by {
            if j < courses.len() {
                assert(courses[i].id != courses[j].id);
            } else {
                assert(courses[i].id != created.id);
            }
        }
    }
}

} // verus!
