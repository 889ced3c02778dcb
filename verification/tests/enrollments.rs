use testm_backend::{Enrollment, EnrollmentStore};

fn entry(student: &str, course_id: u64) -> Enrollment {
    Enrollment { student_principal: student.to_string(), course_id }
}

#[test]
fn new_enrollment_store_is_empty() {
    let store = EnrollmentStore::new();
    assert_eq!(store.get_enrollments(), Vec::<Enrollment>::new());
    assert_eq!(store.get_enrollments_by_student("alice".to_string()), Vec::<Enrollment>::new());
}

#[test]
fn enroll_appends_an_entry() {
    let mut store = EnrollmentStore::new();
    store.enroll_student("alice".to_string(), 1);
    store.enroll_student("bob".to_string(), 2);
    assert_eq!(store.get_enrollments(), vec![entry("alice", 1), entry("bob", 2)]);
}

#[test]
fn enroll_keeps_duplicates() {
    let mut store = EnrollmentStore::new();
    store.enroll_student("alice".to_string(), 1);
    store.enroll_student("alice".to_string(), 1);
    store.enroll_student("alice".to_string(), 1);
    assert_eq!(
        store.get_enrollments(),
        vec![entry("alice", 1), entry("alice", 1), entry("alice", 1)]
    );
}

#[test]
fn enroll_takes_any_student_and_course() {
    let mut store = EnrollmentStore::new();
    store.enroll_student(String::new(), 0);
    store.enroll_student("x".to_string(), u64::MAX);
    assert_eq!(store.get_enrollments(), vec![entry("", 0), entry("x", u64::MAX)]);
}

#[test]
fn dropout_removes_both_copies() {
    let mut store = EnrollmentStore::new();
    store.enroll_student("alice".to_string(), 1);
    store.enroll_student("alice".to_string(), 1);
    store.dropout_student("alice".to_string(), 1);
    let left = store.get_enrollments();
    let copies = left.iter().filter(|e| e.student_principal == "alice" && e.course_id == 1).count();
    assert_eq!(copies, 0);
    assert_eq!(left, Vec::<Enrollment>::new());
}

#[test]
fn dropout_after_double_enrollment_leaves_the_others() {
    let mut store = EnrollmentStore::new();
    store.enroll_student("bob".to_string(), 1);
    store.enroll_student("alice".to_string(), 2);
    let before = store.get_enrollments();
    store.enroll_student("alice".to_string(), 1);
    store.enroll_student("alice".to_string(), 1);
    store.dropout_student("alice".to_string(), 1);
    assert_eq!(store.get_enrollments(), before);
}

#[test]
fn dropout_removes_only_the_exact_pair() {
    let mut store = EnrollmentStore::new();
    store.enroll_student("alice".to_string(), 1);
    store.enroll_student("alice".to_string(), 2);
    store.enroll_student("bob".to_string(), 1);
    store.enroll_student("Alice".to_string(), 1);
    store.enroll_student("alice ".to_string(), 1);
    store.enroll_student("alice".to_string(), 1);
    store.enroll_student("alic".to_string(), 1);
    store.dropout_student("alice".to_string(), 1);
    assert_eq!(
        store.get_enrollments(),
        vec![
            entry("alice", 2),
            entry("bob", 1),
            entry("Alice", 1),
            entry("alice ", 1),
            entry("alic", 1),
        ]
    );
}

#[test]
fn dropout_of_unknown_pair_changes_nothing() {
    let mut store = EnrollmentStore::new();
    store.dropout_student("alice".to_string(), 1);
    assert_eq!(store.get_enrollments(), Vec::<Enrollment>::new());

    store.enroll_student("alice".to_string(), 1);
    store.dropout_student("alice".to_string(), 2);
    store.dropout_student("bob".to_string(), 1);
    assert_eq!(store.get_enrollments(), vec![entry("alice", 1)]);
}

#[test]
fn dropout_removes_copies_wherever_they_stand() {
    let mut store = EnrollmentStore::restore(vec![
        entry("a", 1),
        entry("a", 1),
        entry("b", 1),
        entry("a", 1),
        entry("c", 3),
        entry("a", 2),
        entry("a", 1),
    ]);
    store.dropout_student("a".to_string(), 1);
    assert_eq!(store.get_enrollments(), vec![entry("b", 1), entry("c", 3), entry("a", 2)]);
}

#[test]
fn dropout_twice_is_dropout_once() {
    let mut store = EnrollmentStore::new();
    store.enroll_student("alice".to_string(), 1);
    store.enroll_student("bob".to_string(), 1);
    store.dropout_student("alice".to_string(), 1);
    let once = store.get_enrollments();
    store.dropout_student("alice".to_string(), 1);
    assert_eq!(store.get_enrollments(), once);
    assert_eq!(once, vec![entry("bob", 1)]);
}

#[test]
fn enrollment_after_dropout_is_listed_again() {
    let mut store = EnrollmentStore::new();
    store.enroll_student("alice".to_string(), 1);
    store.dropout_student("alice".to_string(), 1);
    store.enroll_student("alice".to_string(), 1);
    assert_eq!(store.get_enrollments(), vec![entry("alice", 1)]);
}

#[test]
fn by_student_returns_only_that_student_in_order() {
    let mut store = EnrollmentStore::new();
    store.enroll_student("alice".to_string(), 3);
    store.enroll_student("bob".to_string(), 1);
    store.enroll_student("alice".to_string(), 1);
    store.enroll_student("carol".to_string(), 2);
    store.enroll_student("alice".to_string(), 3);
    store.enroll_student("alice".to_string(), 2);
    let found = store.get_enrollments_by_student("alice".to_string());
    assert!(found.iter().all(|e| e.student_principal == "alice"));
    assert_eq!(
        found,
        vec![entry("alice", 3), entry("alice", 1), entry("alice", 3), entry("alice", 2)]
    );
    assert_eq!(store.get_enrollments_by_student("bob".to_string()), vec![entry("bob", 1)]);
}

#[test]
fn by_student_is_case_sensitive_and_exact() {
    let mut store = EnrollmentStore::new();
    store.enroll_student("Alice".to_string(), 1);
    store.enroll_student("alice".to_string(), 2);
    store.enroll_student("ALICE".to_string(), 3);
    store.enroll_student("alice ".to_string(), 4);
    store.enroll_student(" alice".to_string(), 5);
    store.enroll_student("alic".to_string(), 6);
    store.enroll_student(String::new(), 7);
    assert_eq!(store.get_enrollments_by_student("alice".to_string()), vec![entry("alice", 2)]);
    assert_eq!(store.get_enrollments_by_student("Alice".to_string()), vec![entry("Alice", 1)]);
    assert_eq!(store.get_enrollments_by_student(String::new()), vec![entry("", 7)]);
    assert_eq!(store.get_enrollments_by_student("dave".to_string()), Vec::<Enrollment>::new());
}

#[test]
fn by_student_changes_nothing() {
    let mut store = EnrollmentStore::new();
    store.enroll_student("alice".to_string(), 1);
    store.enroll_student("bob".to_string(), 1);
    let before = store.get_enrollments();
    let _ = store.get_enrollments_by_student("alice".to_string());
    let _ = store.get_enrollments_by_student("nobody".to_string());
    assert_eq!(store.get_enrollments(), before);
}

#[test]
fn get_enrollments_is_a_snapshot() {
    let mut store = EnrollmentStore::new();
    store.enroll_student("alice".to_string(), 1);
    let mut snapshot = store.get_enrollments();
    store.enroll_student("bob".to_string(), 2);
    assert_eq!(snapshot, vec![entry("alice", 1)]);
    snapshot[0].course_id = 77;
    assert_eq!(store.get_enrollments(), vec![entry("alice", 1), entry("bob", 2)]);
}

#[test]
fn restored_enrollment_store_lists_what_it_was_given() {
    let entries = vec![entry("z", 26), entry("a", 1), entry("z", 26)];
    let store = EnrollmentStore::restore(entries.clone());
    assert_eq!(store.get_enrollments(), entries);
}

#[test]
fn cloned_enrollment_equals_its_source() {
    let source = entry("principal-2vxsx-fae", u64::MAX);
    let copy = source.clone();
    assert_eq!(copy, source);
    assert_eq!(copy.student_principal, "principal-2vxsx-fae");
    assert_eq!(copy.course_id, u64::MAX);
}
