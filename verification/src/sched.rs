//! The scheduler core: the guarded claim and completion transitions and
//! the per-tick sweep over the table, together with the laws the claim
//! protocol guarantees — a claim happens only once per task, never before
//! the task is due, and never after a delete.
//!
//! The tick loop itself (sleep, handler side effects) runs outside the
//! library; each tick it calls `claim_due` and then, for every claimed
//! task, runs the matching handler and calls `complete`.

use vstd::prelude::*;

use crate::store::{has_id, ids_distinct, Store};
use crate::task::{spec_due, state_rank, states_non_decreasing, valid_step, with_state, State, Task};

verus! {

/// What a claim attempt found. Only `Claimed` transitions the task; every
/// other outcome leaves the table untouched and says exactly why.
#[derive(Clone, Copy, Debug, PartialEq, Eq, Structural)]
pub enum ClaimOutcome {
    /// The guarded write went through: the returned record, already
    /// `Running`, is now stored.
    Claimed(Task),
    /// No task under this id: it was never created, or was deleted since
    /// the scan. The claim write is conditional on the key still being
    /// present, so a racing delete aborts the claim rather than
    /// resurrecting the record.
    NotFound,
    /// The task is no longer `New`: some earlier claim already took it.
    NotNew,
    /// The task's execution time has not arrived.
    NotDue,
}

/// A claim of `id` at time `now` can succeed on table `m`.
pub open spec fn claim_ok(m: Map<u128, Task>, id: u128, now: i64) -> bool {
    m.contains_key(id) && spec_due(m[id], now)
}

/// The table after a successful claim of `id`.
pub open spec fn spec_claim(m: Map<u128, Task>, id: u128) -> Map<u128, Task> {
    m.insert(id, with_state(m[id], State::Running))
}

/// The table after completing `id`.
pub open spec fn spec_complete(m: Map<u128, Task>, id: u128) -> Map<u128, Task> {
    m.insert(id, with_state(m[id], State::Done))
}

impl Store {
    /// The guarded transition `New -> Running`. The task's current record
    /// is re-read immediately before the write, and the write happens
    /// only if the record still exists, is still `New`, and is due; any
    /// other finding aborts the claim and changes nothing.
    pub fn try_claim(&mut self, id: u128, now: i64) -> (r: ClaimOutcome)
        requires
            old(self).wf(),
        ensures
            final(self).wf(),
            match r {
                ClaimOutcome::Claimed(t) => claim_ok(old(self)@, id, now) && t == with_state(
                    old(self)@[id],
                    State::Running,
                ) && t.id == id && final(self)@ == spec_claim(old(self)@, id),
                ClaimOutcome::NotFound => !old(self)@.contains_key(id) && final(self)@ == old(
                    self,
                )@,
                ClaimOutcome::NotNew => old(self)@.contains_key(id) && old(self)@[id].state
                    != State::New && final(self)@ == old(self)@,
                ClaimOutcome::NotDue => old(self)@.contains_key(id) && old(self)@[id].state
                    == State::New && now < old(self)@[id].execution_time && final(self)@ == old(
                    self,
                )@,
            },
            states_non_decreasing(old(self)@, final(self)@),
    {
        proof {
            self.lemma_keyed_by_id();
        }
        match self.get(id) {
            None => ClaimOutcome::NotFound,
            Some(t) => {
                if !matches!(t.state, State::New) {
                    ClaimOutcome::NotNew
                } else if now < t.execution_time {
                    ClaimOutcome::NotDue
                } else {
                    let claimed = crate::task::task_with_state(&t, State::Running);
                    self.put(claimed);
                    ClaimOutcome::Claimed(claimed)
                }
            },
        }
    }

    /// The transition `Running -> Done`, recorded whether the handler
    /// succeeded or failed; there is no retry, so `Done` is terminal.
    /// Guarded like the claim: it happens only if the task still exists
    /// and is still `Running` (a racing delete aborts it), and returns
    /// whether it happened.
    pub fn complete(&mut self, id: u128) -> (r: bool)
        requires
            old(self).wf(),
        ensures
            final(self).wf(),
            r == (old(self)@.contains_key(id) && old(self)@[id].state == State::Running),
            r ==> final(self)@ == spec_complete(old(self)@, id),
            !r ==> final(self)@ == old(self)@,
            states_non_decreasing(old(self)@, final(self)@),
    {
        proof {
            self.lemma_keyed_by_id();
        }
        match self.get(id) {
            None => false,
            Some(t) => {
                if !matches!(t.state, State::Running) {
                    false
                } else {
                    let done = crate::task::task_with_state(&t, State::Done);
                    self.put(done);
                    true
                }
            },
        }
    }
    /// One scheduler sweep at time `now`: snapshot the table, then run
    /// the guarded claim on each due task found. Returns the claimed
    /// records, already `Running`. Afterwards every task that was due is
    /// `Running`, every other record is untouched, and no id appears
    /// twice among the claims.
    #[verifier::rlimit(80)]
    pub fn claim_due(&mut self, now: i64) -> (r: Vec<Task>)
        requires
            old(self).wf(),
        ensures
            final(self).wf(),
            final(self)@.dom() == old(self)@.dom(),
            forall|k: u128|
                #[trigger] old(self)@.contains_key(k) ==> final(self)@[k] == (if spec_due(
                    old(self)@[k],
                    now,
                ) {
                    with_state(old(self)@[k], State::Running)
                } else {
                    old(self)@[k]
                }),
            forall|i: int|
                0 <= i < r@.len() ==> old(self)@.contains_key((#[trigger] r@[i]).id) && spec_due(
                    old(self)@[r@[i].id],
                    now,
                ) && r@[i] == with_state(old(self)@[r@[i].id], State::Running),
            forall|k: u128|
                #[trigger] old(self)@.contains_key(k) && spec_due(old(self)@[k], now) ==> has_id(
                    r@,
                    k,
                ),
            ids_distinct(r@),
            states_non_decreasing(old(self)@, final(self)@),
    {
        proof {
            self.lemma_keyed_by_id();
        }
        let snapshot = self.scan();
        let ghost m0 = self@;
        let mut claimed: Vec<Task> = Vec::new();
        let mut idx: usize = 0;
        while idx < snapshot.len()
            invariant
                self.wf(),
                idx <= snapshot@.len(),
                ids_distinct(snapshot@),
                forall|j: int|
                    0 <= j < snapshot@.len() ==> m0.contains_key(
                        (#[trigger] snapshot@[j]).id,
                    ) && snapshot@[j] == m0[snapshot@[j].id],
                forall|k: u128| #[trigger] m0.contains_key(k) ==> has_id(snapshot@, k),
                forall|k: u128| #[trigger] m0.contains_key(k) ==> m0[k].id == k,
                self@.dom() == m0.dom(),
                forall|j: int|
                    0 <= j < snapshot@.len() ==> self@[(#[trigger] snapshot@[j]).id] == (if j < idx
                        && spec_due(m0[snapshot@[j].id], now) {
                        with_state(m0[snapshot@[j].id], State::Running)
                    } else {
                        m0[snapshot@[j].id]
                    }),
                forall|i: int|
                    0 <= i < claimed@.len() ==> m0.contains_key(
                        (#[trigger] claimed@[i]).id,
                    ) && spec_due(m0[claimed@[i].id], now) && claimed@[i] == with_state(
                        m0[claimed@[i].id],
                        State::Running,
                    ) && has_id(snapshot@.subrange(0, idx as int), claimed@[i].id),
                forall|j: int|
                    0 <= j < idx && spec_due(m0[(#[trigger] snapshot@[j]).id], now) ==> has_id(
                        claimed@,
                        snapshot@[j].id,
                    ),
                ids_distinct(claimed@),
            decreases snapshot@.len() - idx,
        {
            let t = snapshot[idx];
            let ghost pre_self = self@;
            let ghost pre_claimed = claimed@;
            let ghost mut did_claim: bool = false;
            proof {
                assert(snapshot@[idx as int] == t);
                assert(self@[t.id] == m0[t.id]);
                assert(m0[t.id].id == t.id);
            }
            if crate::task::is_due(&t, now) {
                proof {
                    assert(self@.contains_key(t.id)) by {
                        assert(m0.contains_key(t.id));
                        assert(m0.dom().contains(t.id));
                    }
                    assert(claim_ok(self@, t.id, now));
                }
                match self.try_claim(t.id, now) {
                    ClaimOutcome::Claimed(c) => {
                        claimed.push(c);
                        proof {
                            did_claim = true;
                        }
                    },
                    _ => {
                    },
                }
                proof {
                    assert(did_claim);
                }
            }
            idx = idx + 1;
            proof {
                let k0 = t.id;
                assert(snapshot@[idx - 1] == t);
                if did_claim {
                    assert(self@ == pre_self.insert(k0, with_state(m0[k0], State::Running)));
                    assert(claimed@ == pre_claimed.push(with_state(m0[k0], State::Running)));
                    assert(self@.dom() =~= m0.dom());
                } else {
                    assert(self@ == pre_self);
                    assert(claimed@ == pre_claimed);
                    assert(!spec_due(m0[k0], now));
                }
                assert forall|j: int|
                    0 <= j < snapshot@.len() implies self@[(#[trigger] snapshot@[j]).id] == (if j
                    < idx && spec_due(m0[snapshot@[j].id], now) {
                    with_state(m0[snapshot@[j].id], State::Running)
                } else {
                    m0[snapshot@[j].id]
                }) by {
                    if j != idx - 1 {
                        assert(snapshot@[j].id != snapshot@[idx - 1].id);
                        assert(self@[snapshot@[j].id] == pre_self[snapshot@[j].id]);
                    }
                }
                assert forall|i: int|
                    0 <= i < claimed@.len() implies m0.contains_key(
                    (#[trigger] claimed@[i]).id,
                ) && spec_due(m0[claimed@[i].id], now) && claimed@[i] == with_state(
                    m0[claimed@[i].id],
                    State::Running,
                ) && has_id(snapshot@.subrange(0, idx as int), claimed@[i].id) by {
                    if i < pre_claimed.len() {
                        assert(claimed@[i] == pre_claimed[i]);
                        assert(has_id(snapshot@.subrange(0, (idx - 1) as int), pre_claimed[i].id));
                        let jj = choose|jj: int|
                            0 <= jj < snapshot@.subrange(0, (idx - 1) as int).len()
                                && (#[trigger] snapshot@.subrange(0, (idx - 1) as int)[jj]).id
                                == pre_claimed[i].id;
                        assert(snapshot@.subrange(0, idx as int)[jj].id == claimed@[i].id);
                        assert(has_id(snapshot@.subrange(0, idx as int), claimed@[i].id));
                    } else {
                        assert(did_claim);
                        assert(claimed@[i] == with_state(m0[k0], State::Running));
                        assert(claimed@[i].id == k0);
                        assert(snapshot@.subrange(0, idx as int)[idx - 1].id == k0);
                        assert(has_id(snapshot@.subrange(0, idx as int), k0));
                    }
                }
                assert forall|j: int|
                    0 <= j < idx && spec_due(m0[(#[trigger] snapshot@[j]).id], now) implies has_id(
                    claimed@,
                    snapshot@[j].id,
                ) by {
                    if j < idx - 1 {
                        assert(has_id(pre_claimed, snapshot@[j].id));
                        let ii = choose|ii: int|
                            0 <= ii < pre_claimed.len() && pre_claimed[ii].id == snapshot@[j].id;
                        assert(claimed@[ii].id == snapshot@[j].id);
                        assert(has_id(claimed@, snapshot@[j].id));
                    } else {
                        assert(did_claim);
                        assert(claimed@[claimed@.len() - 1].id == k0);
                        assert(has_id(claimed@, k0));
                    }
                }
                assert forall|a: int, b: int|
                    0 <= a < b < claimed@.len() implies claimed@[a].id != claimed@[b].id by {
                    if did_claim && b == claimed@.len() - 1 {
                        assert(claimed@[a] == pre_claimed[a]);
                        assert(has_id(snapshot@.subrange(0, (idx - 1) as int), pre_claimed[a].id));
                        let jj = choose|jj: int|
                            0 <= jj < snapshot@.subrange(0, (idx - 1) as int).len()
                                && (#[trigger] snapshot@.subrange(0, (idx - 1) as int)[jj]).id
                                == pre_claimed[a].id;
                        assert(snapshot@[jj].id == pre_claimed[a].id);
                        assert(snapshot@[jj].id != snapshot@[idx - 1].id);
                        assert(claimed@[b].id == k0);
                    } else {
                        assert(claimed@[a] == pre_claimed[a]);
                        assert(claimed@[b] == pre_claimed[b]);
                        assert(pre_claimed[a].id != pre_claimed[b].id);
                    }
                }
            }
        }
        proof {
            assert forall|k: u128| #[trigger] m0.contains_key(k) implies self@[k] == (if spec_due(
                m0[k],
                now,
            ) {
                with_state(m0[k], State::Running)
            } else {
                m0[k]
            }) by {
                assert(has_id(snapshot@, k));
                let j = choose|j: int| 0 <= j < snapshot@.len() && snapshot@[j].id == k;
                assert(snapshot@[j].id == k);
                assert(self@[snapshot@[j].id] == (if j < idx && spec_due(
                    m0[snapshot@[j].id],
                    now,
                ) {
                    with_state(m0[snapshot@[j].id], State::Running)
                } else {
                    m0[snapshot@[j].id]
                }));
            }
            assert forall|k: u128|
                #[trigger] m0.contains_key(k) && spec_due(m0[k], now) implies has_id(
                claimed@,
                k,
            ) by {
                assert(has_id(snapshot@, k));
                let j = choose|j: int| 0 <= j < snapshot@.len() && snapshot@[j].id == k;
                assert(0 <= j < idx && spec_due(m0[snapshot@[j].id], now));
            }
            assert(states_non_decreasing(m0, self@)) by {
                assert forall|k: u128|
                    m0.contains_key(k) && self@.contains_key(k) implies state_rank(m0[k].state)
                    <= state_rank(self@[k].state) by {
                    assert(m0.contains_key(k));
                }
            }
        }
        claimed
    }
}

/// Largest value the `Baz` handler's random draw can produce.
pub const BAZ_MAX: u64 = 343;

/// Relies on `rand::Rng::gen_range` over `0..=max`: the documented result
/// is a sample from that range, and the range is never empty, so the call
/// does not panic. The sample is random: nothing beyond its bounds is
/// assumed.
#[verifier::external_body]
fn random_in_range(max: u64) -> (r: u64)
    ensures
        r <= max,
{
    rand::Rng::gen_range(&mut rand::thread_rng(), 0..=max)
}

/// The computation of the `Baz` handler: a random draw, always within
/// `0 ..= BAZ_MAX`. Reporting the value is the caller's business.
pub fn baz_value() -> (r: u64)
    ensures
        r <= BAZ_MAX,
{
    random_in_range(BAZ_MAX)
}

/// Each scheduler write is one legal transition of the state machine and
/// skips nothing: a claim steps `New -> Running`, a completion
/// `Running -> Done`.
pub proof fn lemma_scheduler_steps_are_valid(m: Map<u128, Task>, id: u128)
    requires
        m.contains_key(id),
    ensures
        m[id].state == State::New ==> valid_step(m[id].state, spec_claim(m, id)[id].state),
        m[id].state == State::Running ==> valid_step(m[id].state, spec_complete(m, id)[id].state),
{
}

/// A claim is exclusive: once it has succeeded, no later claim of the
/// same id can succeed again, at any time — so the handler of a task runs
/// at most once.
pub proof fn lemma_claim_at_most_once(m: Map<u128, Task>, id: u128, now1: i64, now2: i64)
    requires
        claim_ok(m, id, now1),
    ensures
        !claim_ok(spec_claim(m, id), id, now2),
{
}

/// A task whose execution time lies in the future cannot be claimed.
pub proof fn lemma_no_claim_before_due(m: Map<u128, Task>, id: u128, now: i64)
    requires
        m.contains_key(id) ==> now < m[id].execution_time,
    ensures
        !claim_ok(m, id, now),
{
}

/// Deletion is final for the claim protocol: after an id is removed, no
/// claim of that id can succeed.
pub proof fn lemma_deleted_never_claimed(m: Map<u128, Task>, id: u128, now: i64)
    ensures
        !claim_ok(m.remove(id), id, now),
{
}

/// Observed states compose: if states never decreased from `m1` to `m2`
/// nor from `m2` to `m3`, they never decreased from `m1` to `m3` — for
/// any task that was not deleted and recreated in between.
pub proof fn lemma_states_non_decreasing_trans(
    m1: Map<u128, Task>,
    m2: Map<u128, Task>,
    m3: Map<u128, Task>,
)
    requires
        states_non_decreasing(m1, m2),
        states_non_decreasing(m2, m3),
        forall|k: u128| m1.contains_key(k) && m3.contains_key(k) ==> m2.contains_key(k),
    ensures
        states_non_decreasing(m1, m3),
{
}

} // verus!
