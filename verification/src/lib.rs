//! A delayed-task queue. Clients submit typed tasks that become eligible to
//! run at an absolute time; a polling scheduler discovers due tasks in the
//! task table, claims each one exactly once with a guarded
//! read-then-write, and drives it through the state machine
//! `New -> Running -> Done`. The table itself, the claim protocol, and the
//! persisted record layout are specified and proved here; process plumbing
//! (HTTP routes, the tick loop, handler side effects) lives outside the
//! library and only calls in.

pub mod codec;
pub mod sched;
pub mod store;
pub mod task;
