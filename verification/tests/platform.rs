use testm_backend::{
    Course, CourseStore, Enrollment, EnrollmentStore, VoteRequest, VoteRequestStore,
};

#[test]
fn course_proposal_collects_votes() {
    let mut courses = CourseStore::new();
    let mut votes = VoteRequestStore::new();

    let course = courses.create_course_with_id(
        1_700_000_000_000_000_001,
        "Math".to_string(),
        "intro".to_string(),
    );
    let t1 = course.id;
    let vote = votes.create_vote_request_with_id(1_700_000_000_000_000_002, t1);
    let t2 = vote.id;

    votes.vote_up(t2);
    votes.vote_up(t2);
    votes.vote_up(t2);
    votes.vote_down(t2);

    assert_eq!(
        votes.get_vote_requests(),
        vec![VoteRequest { id: t2, course_id: t1, upvotes: 3, downvotes: 1 }]
    );
    assert_eq!(
        courses.get_courses(),
        vec![Course { id: t1, title: "Math".to_string(), description: "intro".to_string() }]
    );
}

#[test]
fn course_and_vote_ids_are_independent() {
    let mut courses = CourseStore::new();
    let mut votes = VoteRequestStore::new();
    courses.create_course_with_id(5, "Math".to_string(), "intro".to_string());
    votes.create_vote_request_with_id(5, 5);
    votes.vote_up(5);
    votes.decline_vote_request(5);
    assert_eq!(votes.get_vote_requests(), Vec::<VoteRequest>::new());
    assert_eq!(
        courses.get_courses(),
        vec![Course { id: 5, title: "Math".to_string(), description: "intro".to_string() }]
    );
}

#[test]
fn references_to_unknown_courses_are_accepted() {
    let courses = CourseStore::new();
    let mut votes = VoteRequestStore::new();
    let mut enrollments = EnrollmentStore::new();
    votes.create_vote_request_with_id(1, 404);
    enrollments.enroll_student("alice".to_string(), 404);
    assert_eq!(courses.get_courses(), Vec::<Course>::new());
    assert_eq!(
        votes.get_vote_requests(),
        vec![VoteRequest { id: 1, course_id: 404, upvotes: 0, downvotes: 0 }]
    );
    assert_eq!(
        enrollments.get_enrollments(),
        vec![Enrollment { student_principal: "alice".to_string(), course_id: 404 }]
    );
}
