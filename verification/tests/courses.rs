use testm_backend::{Course, CourseStore};

fn course(id: u64, title: &str, description: &str) -> Course {
    Course { id, title: title.to_string(), description: description.to_string() }
}

#[test]
fn new_course_store_is_empty() {
    let store = CourseStore::new();
    assert_eq!(store.get_courses(), Vec::<Course>::new());
}

#[test]
fn create_course_lists_exactly_one_new_course() {
    let mut store = CourseStore::new();
    store.create_course_with_id(10, "Algebra".to_string(), "groups and rings".to_string());
    let before = store.get_courses();

    let created = store.create_course_with_id(20, "Math".to_string(), "intro".to_string());
    let after = store.get_courses();

    assert_eq!(created, course(20, "Math", "intro"));
    assert_eq!(after.len(), before.len() + 1);
    assert_eq!(&after[..before.len()], &before[..]);
    assert_eq!(after[after.len() - 1], course(20, "Math", "intro"));
    assert_ne!(after[after.len() - 1].id, 0);
    assert_eq!(after.iter().filter(|c| c.id == 20).count(), 1);
}

#[test]
fn create_course_takes_empty_strings() {
    let mut store = CourseStore::new();
    let created = store.create_course_with_id(1, String::new(), String::new());
    assert_eq!(created, course(1, "", ""));
    assert_eq!(store.get_courses(), vec![course(1, "", "")]);
}

#[test]
fn courses_are_listed_in_insertion_order() {
    let mut store = CourseStore::new();
    store.create_course_with_id(30, "c".to_string(), "third id first".to_string());
    store.create_course_with_id(10, "a".to_string(), "first id second".to_string());
    store.create_course_with_id(20, "b".to_string(), "second id third".to_string());
    assert_eq!(
        store.get_courses(),
        vec![
            course(30, "c", "third id first"),
            course(10, "a", "first id second"),
            course(20, "b", "second id third"),
        ]
    );
}

#[test]
fn create_course_does_not_compare_ids() {
    let mut store = CourseStore::new();
    store.create_course_with_id(7, "first".to_string(), "x".to_string());
    store.create_course_with_id(7, "second".to_string(), "y".to_string());
    store.create_course_with_id(0, "zero".to_string(), "z".to_string());
    assert_eq!(
        store.get_courses(),
        vec![course(7, "first", "x"), course(7, "second", "y"), course(0, "zero", "z")]
    );
}

#[test]
fn get_courses_is_a_snapshot() {
    let mut store = CourseStore::new();
    store.create_course_with_id(1, "one".to_string(), "1".to_string());
    let mut snapshot = store.get_courses();
    store.create_course_with_id(2, "two".to_string(), "2".to_string());
    assert_eq!(snapshot, vec![course(1, "one", "1")]);

    snapshot[0].title = "changed".to_string();
    snapshot.clear();
    assert_eq!(store.get_courses(), vec![course(1, "one", "1"), course(2, "two", "2")]);
}

#[test]
fn get_courses_changes_nothing() {
    let mut store = CourseStore::new();
    store.create_course_with_id(1, "one".to_string(), "1".to_string());
    let first = store.get_courses();
    let second = store.get_courses();
    assert_eq!(first, second);
}

#[test]
fn restored_course_store_lists_what_it_was_given() {
    let courses = vec![course(5, "five", "e"), course(3, "three", "c")];
    let mut store = CourseStore::restore(courses.clone());
    assert_eq!(store.get_courses(), courses);
    store.create_course_with_id(9, "nine".to_string(), "i".to_string());
    assert_eq!(
        store.get_courses(),
        vec![course(5, "five", "e"), course(3, "three", "c"), course(9, "nine", "i")]
    );
}

#[test]
fn cloned_course_equals_its_source() {
    let source = course(u64::MAX, "Übung", "ünïcödé ✓");
    let copy = source.clone();
    assert_eq!(copy, source);
    assert_eq!(copy.id, u64::MAX);
    assert_eq!(copy.title, "Übung");
    assert_eq!(copy.description, "ünïcödé ✓");
}
