//! Tests that exercise the library together with the real outside
//! sources it draws on: the uuid generator, the wall clock, and the
//! random draw of the `Baz` handler.

use task_api::sched::{baz_value, BAZ_MAX};
use task_api::store::Store;
use task_api::task::{State, TaskType};

#[test]
fn submitted_task_is_stored_new() {
    let mut store = Store::new();
    let t = store.add_task(TaskType::Foo, 3600).expect("fresh id should be free");
    assert_eq!(t.task_type, TaskType::Foo);
    assert_eq!(t.state, State::New);
    assert_eq!(store.get(t.id), Some(t));
    assert_eq!(store.scan().len(), 1);
}

#[test]
fn submitted_ids_are_fresh() {
    let mut store = Store::new();
    let first = store.add_task(TaskType::Bar, 60).expect("fresh id should be free");
    // A second submission may in principle collide with the first random
    // id; the library then refuses it rather than overwrite.
    match store.add_task(TaskType::Bar, 60) {
        Ok(second) => {
            assert_ne!(first.id, second.id);
            assert_eq!(store.scan().len(), 2);
        },
        Err(_) => {
            assert_eq!(store.scan().len(), 1);
        },
    }
}

#[test]
fn immediate_submission_becomes_due() {
    // A task submitted with no delay is due at (or just after) the clock
    // reading the library took at creation.
    let mut store = Store::new();
    let t = store.add_task(TaskType::Baz, 0).expect("fresh id should be free");
    // Sweep at a time safely past the creation instant.
    let claimed = store.claim_due(t.execution_time);
    assert_eq!(claimed.len(), 1);
    assert_eq!(claimed[0].id, t.id);
    assert!(store.complete(t.id));
    assert_eq!(store.get(t.id).unwrap().state, State::Done);
}

#[test]
fn baz_draw_stays_in_range() {
    for _ in 0..200 {
        assert!(baz_value() <= BAZ_MAX);
    }
}
