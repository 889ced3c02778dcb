//! The record store behind a small online-course platform.
//!
//! Three independent stores keep, each in insertion order, the courses on
//! offer, the vote requests by which the community approves or rejects a
//! proposed course, and the enrollments of students in courses. Every
//! operation is one step on one store, and its contract says exactly what the
//! store holds afterwards, over the sequence of records that the store stands
//! for.
//!
//! A new course or vote request gets the host's time as its id. The stores
//! compare no ids and follow no reference from one store into another: what
//! holds where ids differ is stated as such, and proved, beside each store.

mod clock;
pub mod course;
pub mod enrollment;
mod retain;
pub mod vote;

pub use course::{Course, CourseStore, CourseView};
pub use enrollment::{Enrollment, EnrollmentStore, EnrollmentView};
pub use vote::{VoteRequest, VoteRequestStore};
