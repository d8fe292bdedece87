//! The task table: an in-memory model of the ordered key-value store the
//! system keeps its tasks in, keyed by task id.
//!
//! The table is viewed as a `Map<u128, Task>`; every operation's contract
//! is stated over that map, and `wf` (all stored ids distinct) is
//! established by the constructor and preserved everywhere. The creation
//! path lives here too: `add_task_at` is the fully specified core,
//! `add_task` is the thin entry that draws a fresh id and the current time
//! from outside and hands them to it.

use vstd::prelude::*;

use crate::task::{states_non_decreasing, State, Task, TaskError, TaskType};

verus! {

/// No two tasks in the sequence share an id.
pub open spec fn ids_distinct(s: Seq<Task>) -> bool {
    forall|i: int, j: int| 0 <= i < j < s.len() ==> s[i].id != s[j].id
}

/// Some task in the sequence carries this id.
pub open spec fn has_id(s: Seq<Task>, k: u128) -> bool {
    exists|i: int| 0 <= i < s.len() && s[i].id == k
}

/// The mapping a task sequence represents: each task filed under its id,
/// later entries shadowing earlier ones.
pub open spec fn map_of(s: Seq<Task>) -> Map<u128, Task>
    decreases s.len(),
{
    if s.len() == 0 {
        Map::empty()
    } else {
        map_of(s.drop_last()).insert(s.last().id, s.last())
    }
}

proof fn lemma_distinct_drop_last(s: Seq<Task>)
    requires
        ids_distinct(s),
        s.len() > 0,
    ensures
        ids_distinct(s.drop_last()),
{
    assert forall|i: int, j: int|
        0 <= i < j < s.drop_last().len() implies s.drop_last()[i].id != s.drop_last()[j].id by {
        assert(s[i].id != s[j].id);
    }
}

proof fn lemma_map_of_contains(s: Seq<Task>, k: u128)
    ensures
        map_of(s).contains_key(k) <==> exists|i: int| 0 <= i < s.len() && s[i].id == k,
    decreases s.len(),
{
    if s.len() > 0 {
        lemma_map_of_contains(s.drop_last(), k);
        if s.last().id == k {
            assert(s[s.len() - 1].id == k);
        } else {
            if map_of(s).contains_key(k) {
                let i = choose|i: int| 0 <= i < s.drop_last().len() && s.drop_last()[i].id == k;
                assert(s[i].id == k);
            }
            if exists|i: int| 0 <= i < s.len() && s[i].id == k {
                let i = choose|i: int| 0 <= i < s.len() && s[i].id == k;
                assert(i < s.len() - 1);
                assert(s.drop_last()[i].id == k);
            }
        }
    }
}

proof fn lemma_map_of_key_ids(s: Seq<Task>)
    ensures
        forall|k: u128| #![auto] map_of(s).contains_key(k) ==> map_of(s)[k].id == k,
    decreases s.len(),
{
    if s.len() > 0 {
        lemma_map_of_key_ids(s.drop_last());
    }
}

proof fn lemma_map_of_index(s: Seq<Task>, i: int)
    requires
        ids_distinct(s),
        0 <= i < s.len(),
    ensures
        map_of(s).contains_key(s[i].id),
        map_of(s)[s[i].id] == s[i],
    decreases s.len(),
{
    if i < s.len() - 1 {
        lemma_distinct_drop_last(s);
        lemma_map_of_index(s.drop_last(), i);
        assert(s[i].id != s[s.len() - 1].id);
    }
}

proof fn lemma_map_of_push(s: Seq<Task>, t: Task)
    ensures
        map_of(s.push(t)) == map_of(s).insert(t.id, t),
{
    assert(s.push(t).drop_last() =~= s);
    assert(s.push(t).last() == t);
}

proof fn lemma_map_of_remove(s: Seq<Task>, i: int)
    requires
        ids_distinct(s),
        0 <= i < s.len(),
    ensures
        map_of(s.remove(i)) == map_of(s).remove(s[i].id),
        ids_distinct(s.remove(i)),
    decreases s.len(),
{
    let s2 = s.remove(i);
    assert forall|a: int, b: int| 0 <= a < b < s2.len() implies s2[a].id != s2[b].id by {
        if b < i {
            assert(s[a].id != s[b].id);
        } else if a < i {
            assert(s[a].id != s[b + 1].id);
        } else {
            assert(s[a + 1].id != s[b + 1].id);
        }
    }
    lemma_distinct_drop_last(s);
    lemma_map_of_contains(s.drop_last(), s[i].id);
    if i == s.len() - 1 {
        assert(s2 =~= s.drop_last());
        assert(!map_of(s.drop_last()).contains_key(s[i].id));
        assert(map_of(s.drop_last()).insert(s.last().id, s.last()).remove(s.last().id)
            =~= map_of(s.drop_last()));
    } else {
        assert(s2.drop_last() =~= s.drop_last().remove(i));
        assert(s2.last() == s.last());
        lemma_map_of_remove(s.drop_last(), i);
        assert(s[i].id != s.last().id);
        assert(map_of(s.drop_last()).remove(s[i].id).insert(s.last().id, s.last())
            =~= map_of(s.drop_last()).insert(s.last().id, s.last()).remove(s[i].id));
    }
}

/// The task table. The only mutators are task creation, deletion, and the
/// scheduler's two guarded transitions, so the table's history can never
/// show a task's state move backwards.
pub struct Store {
    tasks: Vec<Task>,
}

impl View for Store {
    type V = Map<u128, Task>;

    closed spec fn view(&self) -> Map<u128, Task> {
        map_of(self.tasks@)
    }
}

impl Store {
    /// All stored ids are distinct. Established at construction and
    /// preserved by every operation.
    pub closed spec fn wf(&self) -> bool {
        ids_distinct(self.tasks@)
    }

    /// An empty table.
    pub fn new() -> (r: Store)
        ensures
            r.wf(),
            r@ == Map::<u128, Task>::empty(),
    {
        Store { tasks: Vec::new() }
    }

    /// Every stored record is filed under its own id.
    pub proof fn lemma_keyed_by_id(&self)
        ensures
            forall|k: u128| #![auto] self@.contains_key(k) ==> self@[k].id == k,
    {
        lemma_map_of_key_ids(self.tasks@);
    }

    fn find_index(&self, id: u128) -> (r: Option<usize>)
        ensures
            match r {
                Some(i) => i < self.tasks@.len() && self.tasks@[i as int].id == id,
                None => forall|i: int| 0 <= i < self.tasks@.len() ==> self.tasks@[i].id != id,
            },
    {
        let mut i: usize = 0;
        while i < self.tasks.len()
            invariant
                i <= self.tasks@.len(),
                forall|j: int| 0 <= j < i ==> self.tasks@[j].id != id,
            decreases self.tasks@.len() - i,
        {
            if self.tasks[i].id == id {
                return Some(i);
            }
            i = i + 1;
        }
        None
    }

    /// Look a task up by id; returns exactly the stored record.
    pub fn get(&self, id: u128) -> (r: Option<Task>)
        requires
            self.wf(),
        ensures
            r == if self@.contains_key(id) {
                Some(self@[id])
            } else {
                None::<Task>
            },
    {
        match self.find_index(id) {
            Some(i) => {
                proof {
                    lemma_map_of_index(self.tasks@, i as int);
                }
                Some(self.tasks[i])
            },
            None => {
                proof {
                    lemma_map_of_contains(self.tasks@, id);
                }
                None
            },
        }
    }

    /// Write a record under its id, replacing any record already there.
    /// Only this module and the scheduler reach it: clients of the library
    /// cannot overwrite a task's state.
    pub(crate) fn put(&mut self, t: Task)
        requires
            old(self).wf(),
        ensures
            final(self).wf(),
            final(self)@ == old(self)@.insert(t.id, t),
    {
        match self.find_index(t.id) {
            Some(i) => {
                proof {
                    lemma_map_of_remove(self.tasks@, i as int);
                    lemma_map_of_contains(self.tasks@.remove(i as int), t.id);
                }
                let ghost removed = self.tasks@.remove(i as int);
                self.tasks.remove(i);
                proof {
                    lemma_map_of_push(removed, t);
                    assert(map_of(removed).insert(t.id, t) =~= map_of(old(self).tasks@).insert(
                        t.id,
                        t,
                    ));
                    assert forall|a: int, b: int|
                        0 <= a < b < removed.push(t).len()
                        implies removed.push(t)[a].id != removed.push(t)[b].id by {
                        if b == removed.len() {
                            assert(!(exists|x: int|
                                0 <= x < removed.len() && removed[x].id == t.id));
                            assert(removed.push(t)[a] == removed[a]);
                            assert(removed[a].id != t.id);
                        } else {
                            assert(removed[a].id != removed[b].id);
                        }
                    }
                }
                self.tasks.push(t);
            },
            None => {
                proof {
                    lemma_map_of_push(self.tasks@, t);
                    assert forall|a: int, b: int|
                        0 <= a < b < self.tasks@.push(t).len()
                        implies self.tasks@.push(t)[a].id != self.tasks@.push(t)[b].id by {
                        if b == self.tasks@.len() {
                            assert(self.tasks@.push(t)[a] == self.tasks@[a]);
                            assert(self.tasks@[a].id != t.id);
                        } else {
                            assert(self.tasks@[a].id != self.tasks@[b].id);
                        }
                    }
                }
                self.tasks.push(t);
            },
        }
    }

    /// Remove a task by id; a miss leaves the table as it was. Returns
    /// whether the id was present.
    pub fn delete(&mut self, id: u128) -> (r: bool)
        requires
            old(self).wf(),
        ensures
            final(self).wf(),
            final(self)@ == old(self)@.remove(id),
            r == old(self)@.contains_key(id),
            states_non_decreasing(old(self)@, final(self)@),
    {
        proof {
            lemma_map_of_contains(self.tasks@, id);
        }
        match self.find_index(id) {
            Some(i) => {
                proof {
                    lemma_map_of_remove(self.tasks@, i as int);
                }
                self.tasks.remove(i);
                true
            },
            None => {
                proof {
                    assert(old(self)@.remove(id) =~= old(self)@);
                }
                false
            },
        }
    }

    /// Snapshot of every stored task: each returned task is the stored
    /// record under its id, every stored id appears, and no id twice.
    pub fn scan(&self) -> (r: Vec<Task>)
        requires
            self.wf(),
        ensures
            ids_distinct(r@),
            forall|i: int|
                0 <= i < r@.len() ==> self@.contains_key(#[trigger] r@[i].id) && self@[r@[i].id]
                    == r@[i],
            forall|k: u128| #[trigger] self@.contains_key(k) ==> has_id(r@, k),
    {
        let mut out: Vec<Task> = Vec::new();
        let mut i: usize = 0;
        proof {
            assert(out@ =~= self.tasks@.subrange(0, 0));
        }
        while i < self.tasks.len()
            invariant
                i <= self.tasks@.len(),
                out@ == self.tasks@.subrange(0, i as int),
            decreases self.tasks@.len() - i,
        {
            out.push(self.tasks[i]);
            proof {
                assert(out@ =~= self.tasks@.subrange(0, i + 1));
            }
            i = i + 1;
        }
        proof {
            assert(out@ =~= self.tasks@);
            assert forall|i: int|
                0 <= i < out@.len() implies self@.contains_key(#[trigger] out@[i].id)
                && self@[out@[i].id] == out@[i] by {
                lemma_map_of_index(self.tasks@, i);
            }
            assert forall|k: u128| self@.contains_key(k) implies has_id(out@, k) by {
                lemma_map_of_contains(self.tasks@, k);
                let i = choose|i: int| 0 <= i < self.tasks@.len() && self.tasks@[i].id == k;
                assert(out@[i].id == k);
            }
        }
        out
    }

    /// Create a task from explicit inputs: the execution time is
    /// `now + delay`, the state `New`. Refused, with the table untouched,
    /// when that sum leaves the timestamp range or the id is taken.
    pub fn add_task_at(&mut self, id: u128, task_type: TaskType, now: i64, delay: i64) -> (r:
        Result<Task, TaskError>)
        requires
            old(self).wf(),
        ensures
            final(self).wf(),
            match r {
                Ok(t) => i64::MIN <= now + delay <= i64::MAX && !old(self)@.contains_key(id) && t
                    == (Task {
                    id,
                    task_type,
                    execution_time: (now + delay) as i64,
                    state: State::New,
                }) && final(self)@ == old(self)@.insert(id, t),
                Err(e) => final(self)@ == old(self)@ && (e == TaskError::TimeOverflow <==> !(
                i64::MIN <= now + delay <= i64::MAX)) && (e == TaskError::DuplicateId <==> (
                i64::MIN <= now + delay <= i64::MAX) && old(self)@.contains_key(id)),
            },
    {
        let execution_time = match now.checked_add(delay) {
            Some(s) => s,
            None => {
                return Err(TaskError::TimeOverflow);
            },
        };
        match self.get(id) {
            Some(_) => Err(TaskError::DuplicateId),
            None => {
                let t = Task { id, task_type, execution_time, state: State::New };
                self.put(t);
                Ok(t)
            },
        }
    }

    /// Submit a task as a client does: a fresh random id and the clock are
    /// taken from outside, so success also depends on them; whenever `Ok`
    /// is returned the stored record is exactly the returned task, which
    /// is `New`, of the requested type, and under an id that was free.
    pub fn add_task(&mut self, task_type: TaskType, delay: i64) -> (r: Result<Task, TaskError>)
        requires
            old(self).wf(),
        ensures
            final(self).wf(),
            match r {
                Ok(t) => t.task_type == task_type && t.state == State::New && !old(
                    self,
                )@.contains_key(t.id) && final(self)@ == old(self)@.insert(t.id, t),
                Err(_) => final(self)@ == old(self)@,
            },
            states_non_decreasing(old(self)@, final(self)@),
    {
        let id = fresh_id();
        let now = now_seconds();
        self.add_task_at(id, task_type, now, delay)
    }
}

/// Relies on `uuid::Uuid::new_v4` for a freshly generated random id,
/// taken as its 128-bit value. The result is random: nothing is assumed
/// of it, and callers must check it for collisions themselves.
#[verifier::external_body]
fn fresh_id() -> (r: u128) {
    uuid::Uuid::new_v4().as_u128()
}

/// Relies on `chrono::Utc::now` for the current wall-clock time, taken as
/// whole seconds since the epoch. The clock decides the value: nothing is
/// assumed of it.
#[verifier::external_body]
fn now_seconds() -> (r: i64) {
    chrono::Utc::now().timestamp()
}

} // verus!
