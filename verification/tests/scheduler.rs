use task_api::sched::ClaimOutcome;
use task_api::store::Store;
use task_api::task::{State, Task, TaskError, TaskType};

const NOW: i64 = 1_700_000_000;

fn store_with(entries: &[(u128, TaskType, i64)]) -> Store {
    let mut store = Store::new();
    for (id, task_type, delay) in entries {
        store.add_task_at(*id, *task_type, NOW, *delay).unwrap();
    }
    store
}

#[test]
fn immediate_task_runs_within_one_tick() {
    // delay 0: one sweep claims it, completion marks it Done.
    let mut store = store_with(&[(1, TaskType::Foo, 0)]);
    assert_eq!(store.get(1).unwrap().state, State::New);

    let claimed = store.claim_due(NOW);
    assert_eq!(claimed.len(), 1);
    assert_eq!(claimed[0].id, 1);
    assert_eq!(claimed[0].state, State::Running);
    assert_eq!(store.get(1).unwrap().state, State::Running);

    assert!(store.complete(1));
    assert_eq!(store.get(1).unwrap().state, State::Done);
}

#[test]
fn far_future_task_stays_new() {
    // delay 3600: sweeps well before that leave it untouched.
    let mut store = store_with(&[(5, TaskType::Bar, 3600)]);
    for tick in 0..5 {
        let claimed = store.claim_due(NOW + tick);
        assert!(claimed.is_empty());
        assert_eq!(store.get(5).unwrap().state, State::New);
    }
    // At the execution time itself the task becomes eligible.
    let claimed = store.claim_due(NOW + 3600);
    assert_eq!(claimed.len(), 1);
    assert_eq!(store.get(5).unwrap().state, State::Running);
}

#[test]
fn no_claim_before_execution_time() {
    let mut store = store_with(&[(3, TaskType::Baz, 10)]);
    assert!(matches!(store.try_claim(3, NOW), ClaimOutcome::NotDue));
    assert!(matches!(store.try_claim(3, NOW + 9), ClaimOutcome::NotDue));
    assert_eq!(store.get(3).unwrap().state, State::New);
    assert!(matches!(store.try_claim(3, NOW + 10), ClaimOutcome::Claimed(_)));
}

#[test]
fn claim_is_exclusive() {
    // Two overlapping sweeps race on the same due task: the second claim
    // finds it no longer New and must not run the handler again.
    let mut store = store_with(&[(8, TaskType::Foo, 0)]);
    let mut handler_runs = 0;

    match store.try_claim(8, NOW) {
        ClaimOutcome::Claimed(t) => {
            assert_eq!(t.state, State::Running);
            handler_runs += 1;
        },
        other => panic!("first claim should succeed, got {:?}", other),
    }
    match store.try_claim(8, NOW) {
        ClaimOutcome::NotNew => {},
        other => panic!("second claim should abort, got {:?}", other),
    }
    assert_eq!(handler_runs, 1);

    assert!(store.complete(8));
    // Even after completion the task can never be claimed again.
    assert!(matches!(store.try_claim(8, NOW + 100), ClaimOutcome::NotNew));
    assert_eq!(store.get(8).unwrap().state, State::Done);
}

#[test]
fn two_same_type_tasks_each_done_exactly_once() {
    let mut store = store_with(&[(21, TaskType::Baz, 0), (22, TaskType::Baz, 0)]);
    let mut runs_21 = 0;
    let mut runs_22 = 0;

    // First sweep claims both.
    let claimed = store.claim_due(NOW);
    assert_eq!(claimed.len(), 2);
    assert_ne!(claimed[0].id, claimed[1].id);
    for t in &claimed {
        match t.id {
            21 => runs_21 += 1,
            22 => runs_22 += 1,
            other => panic!("unexpected id {}", other),
        }
    }
    // An overlapping second sweep finds nothing left to claim.
    let claimed_again = store.claim_due(NOW);
    assert!(claimed_again.is_empty());

    for t in &claimed {
        assert!(store.complete(t.id));
    }
    assert_eq!(runs_21, 1);
    assert_eq!(runs_22, 1);
    assert_eq!(store.get(21).unwrap().state, State::Done);
    assert_eq!(store.get(22).unwrap().state, State::Done);
    assert!(store.claim_due(NOW + 50).is_empty());
}

#[test]
fn delete_removes_and_prevents_claim() {
    let mut store = store_with(&[(31, TaskType::Foo, 0), (32, TaskType::Bar, 0)]);
    assert!(store.delete(31));
    assert_eq!(store.get(31), None);
    let listed = store.scan();
    assert_eq!(listed.len(), 1);
    assert_eq!(listed[0].id, 32);
    assert!(matches!(store.try_claim(31, NOW), ClaimOutcome::NotFound));
    // Deleting a missing id reports the miss and changes nothing.
    assert!(!store.delete(31));
}

#[test]
fn delete_racing_completion_aborts_it() {
    // The task is claimed, then deleted before the completion write: the
    // guarded completion finds the key gone and must not resurrect it.
    let mut store = store_with(&[(41, TaskType::Baz, 0)]);
    assert!(matches!(store.try_claim(41, NOW), ClaimOutcome::Claimed(_)));
    assert!(store.delete(41));
    assert!(!store.complete(41));
    assert_eq!(store.get(41), None);
    assert!(matches!(store.try_claim(41, NOW), ClaimOutcome::NotFound));
}

#[test]
fn observed_states_never_decrease() {
    fn rank(s: State) -> u32 {
        match s {
            State::New => 0,
            State::Running => 1,
            State::Done => 2,
        }
    }
    let mut store = store_with(&[(51, TaskType::Foo, 2)]);
    let mut observed: Vec<State> = Vec::new();

    for tick in 0..6 {
        let claimed = store.claim_due(NOW + tick);
        observed.push(store.get(51).unwrap().state);
        for t in &claimed {
            store.complete(t.id);
        }
        observed.push(store.get(51).unwrap().state);
    }
    for pair in observed.windows(2) {
        assert!(rank(pair[0]) <= rank(pair[1]));
    }
    assert_eq!(observed[0], State::New);
    assert_eq!(*observed.last().unwrap(), State::Done);
}

#[test]
fn created_task_reads_back_unchanged() {
    let mut store = Store::new();
    let created = store.add_task_at(61, TaskType::Bar, NOW, 120).unwrap();
    let expected = Task {
        id: 61,
        task_type: TaskType::Bar,
        execution_time: NOW + 120,
        state: State::New,
    };
    assert_eq!(created, expected);
    assert_eq!(store.get(61), Some(expected));
    let listed = store.scan();
    assert_eq!(listed.len(), 1);
    assert_eq!(listed[0], expected);
}

#[test]
fn duplicate_id_is_rejected() {
    let mut store = store_with(&[(71, TaskType::Foo, 0)]);
    let first = store.get(71).unwrap();
    assert_eq!(
        store.add_task_at(71, TaskType::Baz, NOW, 500),
        Err(TaskError::DuplicateId)
    );
    // The stored record is untouched.
    assert_eq!(store.get(71), Some(first));
}

#[test]
fn execution_time_overflow_is_rejected() {
    let mut store = Store::new();
    assert_eq!(
        store.add_task_at(81, TaskType::Foo, i64::MAX, 1),
        Err(TaskError::TimeOverflow)
    );
    assert_eq!(
        store.add_task_at(81, TaskType::Foo, i64::MIN, -1),
        Err(TaskError::TimeOverflow)
    );
    assert_eq!(store.get(81), None);
    assert!(store.scan().is_empty());
}

#[test]
fn due_test_matches_state_and_time() {
    let t = Task {
        id: 1,
        task_type: TaskType::Foo,
        execution_time: 100,
        state: State::New,
    };
    assert!(task_api::task::is_due(&t, 100));
    assert!(task_api::task::is_due(&t, 101));
    assert!(!task_api::task::is_due(&t, 99));
    let r = task_api::task::task_with_state(&t, State::Running);
    assert!(!task_api::task::is_due(&r, 200));
    assert_eq!(r.id, 1);
    assert_eq!(r.task_type, TaskType::Foo);
    assert_eq!(r.execution_time, 100);
    assert_eq!(r.state, State::Running);
}

#[test]
fn scan_snapshots_every_task() {
    let mut store = store_with(&[
        (91, TaskType::Foo, 0),
        (92, TaskType::Bar, 60),
        (93, TaskType::Baz, 3600),
    ]);
    store.claim_due(NOW);
    let listed = store.scan();
    assert_eq!(listed.len(), 3);
    let mut ids: Vec<u128> = listed.iter().map(|t| t.id).collect();
    ids.sort();
    assert_eq!(ids, vec![91, 92, 93]);
}
