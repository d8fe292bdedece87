//! The task entity and its state machine.

use vstd::prelude::*;

verus! {

/// Selects which handler runs once a task is claimed. The set is closed:
/// dispatch is an exhaustive match, so adding a variant is a compile-time
/// obligation on every dispatcher.
#[derive(Clone, Copy, Debug, PartialEq, Eq, Structural)]
pub enum TaskType {
    Foo,
    Bar,
    Baz,
}

/// Lifecycle state of a task. Transitions are strictly monotonic:
/// `New -> Running` on claim, `Running -> Done` on completion, and nothing
/// else. There is no failure state: a handler error still ends at `Done`,
/// because a task is attempted at most once.
#[derive(Clone, Copy, Debug, PartialEq, Eq, Structural)]
pub enum State {
    New,
    Running,
    Done,
}

/// Why a mutating table operation was refused.
#[derive(Clone, Copy, Debug, PartialEq, Eq, Structural)]
pub enum TaskError {
    /// A task with the same id is already stored.
    DuplicateId,
    /// `creation time + requested delay` does not fit in a timestamp.
    TimeOverflow,
}

/// A unit of delayed work. `id` is the table key and never changes;
/// `execution_time` (seconds since the epoch) is fixed at creation;
/// only `state` moves, and only forward.
#[derive(Clone, Copy, Debug, PartialEq, Eq, Structural)]
pub struct Task {
    pub id: u128,
    pub task_type: TaskType,
    pub execution_time: i64,
    pub state: State,
}

/// Position of a state in the lifecycle order `New < Running < Done`.
pub open spec fn state_rank(s: State) -> int {
    match s {
        State::New => 0,
        State::Running => 1,
        State::Done => 2,
    }
}

/// The two transitions the state machine allows.
pub open spec fn valid_step(a: State, b: State) -> bool {
    ||| (a == State::New && b == State::Running)
    ||| (a == State::Running && b == State::Done)
}

/// `t` with its state replaced and every other field untouched.
pub open spec fn with_state(t: Task, s: State) -> Task {
    Task { id: t.id, task_type: t.task_type, execution_time: t.execution_time, state: s }
}

/// A task is due when it is still unclaimed and its execution time has
/// arrived.
pub open spec fn spec_due(t: Task, now: i64) -> bool {
    t.state == State::New && now >= t.execution_time
}

/// Between two table states, no task present in both moved backwards in
/// the lifecycle order. Every mutating table operation ensures this, so
/// the states a client observes for a task over time never decrease.
pub open spec fn states_non_decreasing(m1: Map<u128, Task>, m2: Map<u128, Task>) -> bool {
    forall|k: u128|
        #![auto]
        m1.contains_key(k) && m2.contains_key(k) ==> state_rank(m1[k].state) <= state_rank(
            m2[k].state,
        )
}

/// Eligibility test the scheduler applies to every scanned task.
pub fn is_due(t: &Task, now: i64) -> (r: bool)
    ensures
        r == spec_due(*t, now),
{
    t.state == State::New && now >= t.execution_time
}

/// Copy of `t` with a new state; the claim and completion writes are built
/// from this, so id, type and execution time survive every transition.
pub fn task_with_state(t: &Task, s: State) -> (r: Task)
    ensures
        r == with_state(*t, s),
{
    Task { id: t.id, task_type: t.task_type, execution_time: t.execution_time, state: s }
}

} // verus!
