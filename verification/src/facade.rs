//! The facade: the tasks of one deck, split into those that wait and those to
//! recall.

use crate::clock::current_instant;
use crate::error::Error;
use crate::ident::{
    first_free, first_free_at, id_space, lemma_first_free_is, lemma_probes_bound, next_id, probe,
};
use crate::ordered::{
    find_id, find_repeat, insert_by_due, lemma_rank_in_range, lemma_rank_is, rank, search_due,
    sort_by_due,
};
use crate::random::{gen_index, random_id, thread_rng};
use crate::retention::{is_valid_retention, valid_retention};
use crate::task::{Interaction, SharedState, SharedStateExt, Task, TaskId};
use crate::time::{due_by, is_due_by, time_until, wait, LOOKAHEAD};
use crate::wrapper::{
    disjoint_ids, distinct_ids, first_index_of_id, has_id, id_set, index_of_id, lemma_concat,
    lemma_disjoint,
    lemma_entry, lemma_id_count, lemma_id_set_is_dom, lemma_insert, lemma_push, lemma_remove,
    lemma_sorted_parts, lemma_split, lemma_swap_remove, repeats_id, sorted_by_due, task_map,
    without_id, TaskWrapper,
};
use std::collections::HashSet;
use vstd::prelude::*;

verus! {

/// The tasks of one deck.
///
/// Every task is held under an identifier of its own. The tasks whose next
/// repetition lies ahead wait in the pool, in ascending order of that instant as
/// the current shared state and desired retention give it; the others stand in
/// the batch to recall, in no particular order.
pub struct Facade<T: Task> {
    name: String,
    tasks_pool: Vec<TaskWrapper<T>>,
    tasks_to_recall: Vec<TaskWrapper<T>>,
    desired_retention: u64,
    state: T::SharedState,
}

impl<T: Task> Facade<T> {
    /// The name of the deck.
    pub closed spec fn name(&self) -> Seq<char> {
        self.name@
    }

    /// The waiting entries, in their order.
    pub closed spec fn pool(&self) -> Seq<TaskWrapper<T>> {
        self.tasks_pool@
    }

    /// The entries to recall, in their order.
    pub closed spec fn recall(&self) -> Seq<TaskWrapper<T>> {
        self.tasks_to_recall@
    }

    /// The desired retention, as a bit pattern.
    pub closed spec fn retention(&self) -> u64 {
        self.desired_retention
    }

    /// The state shared by all tasks.
    pub closed spec fn shared_state(&self) -> T::SharedState {
        self.state
    }

    /// What holds of a facade between any two calls: the desired retention is
    /// valid, no identifier is used twice, the pool is in ascending order of next
    /// repetitions, and the number of tasks fits the machine.
    pub open spec fn wf(&self) -> bool {
        &&& self.sound()
        &&& sorted_by_due(self.pool(), &self.shared_state(), self.retention())
    }

    /// [`Facade::wf`] but for the order of the pool.
    pub open spec fn sound(&self) -> bool {
        &&& valid_retention(self.retention())
        &&& distinct_ids(self.pool())
        &&& distinct_ids(self.recall())
        &&& disjoint_ids(self.pool(), self.recall())
        &&& self.pool().len() + self.recall().len() <= usize::MAX
    }

    /// The number of entries.
    pub open spec fn total(&self) -> nat {
        self.pool().len() + self.recall().len()
    }

    /// All tasks by identifier.
    pub open spec fn tasks(&self) -> Map<TaskId, T> {
        task_map(self.pool()).union_prefer_right(task_map(self.recall()))
    }

    /// The identifiers of the waiting tasks.
    pub open spec fn pool_ids(&self) -> Set<TaskId> {
        id_set(self.pool())
    }

    /// The identifiers of the tasks to recall.
    pub open spec fn recall_ids(&self) -> Set<TaskId> {
        id_set(self.recall())
    }

    /// The next repetition of the task under `id`.
    pub open spec fn due_of(&self, id: TaskId) -> i128 {
        self.tasks()[id].due(&self.shared_state(), self.retention())
    }

    /// The identifiers in use are those of the pool and those of the batch to
    /// recall, and there are as many as entries.
    pub proof fn lemma_ids(&self)
        requires
            self.sound(),
        ensures
            self.tasks().dom() == self.pool_ids().union(self.recall_ids()),
            self.pool_ids().disjoint(self.recall_ids()),
            self.tasks().dom().finite(),
            self.pool_ids().finite(),
            self.recall_ids().finite(),
            self.pool_ids().len() == self.pool().len(),
            self.recall_ids().len() == self.recall().len(),
            self.tasks().dom().len() == self.total(),
    {
        lemma_id_set_is_dom(self.pool());
        lemma_id_set_is_dom(self.recall());
        lemma_id_count(self.pool());
        lemma_id_count(self.recall());
        assert(self.tasks().dom() =~= self.pool_ids().union(self.recall_ids()));
        assert(self.pool_ids().disjoint(self.recall_ids())) by {
            assert forall|id: TaskId|
                !(self.pool_ids().contains(id) && self.recall_ids().contains(id)) by {
                if has_id(self.pool(), id) && has_id(self.recall(), id) {
                    let i = index_of_id(self.pool(), id);
                    let j = index_of_id(self.recall(), id);
                    assert(self.pool()[i].id != self.recall()[j].id);
                }
            }
        }
        vstd::set_lib::lemma_set_disjoint_lens(self.pool_ids(), self.recall_ids());
    }

    /// An empty facade. Fails with [`Error::InvalidRetention`] exactly when the
    /// desired retention is not in `(0, 1]`.
    pub fn new(name: String, desired_retention: u64) -> (made: Result<Self, Error>)
        ensures
            valid_retention(desired_retention) <==> made is Ok,
            made matches Ok(facade) ==> {
                &&& facade.wf()
                &&& facade.name() == name@
                &&& facade.retention() == desired_retention
                &&& facade.shared_state() == T::SharedState::initial()
                &&& facade.pool().len() == 0
                &&& facade.recall().len() == 0
                &&& facade.tasks() == Map::<TaskId, T>::empty()
            },
            made matches Err(e) ==> e is InvalidRetention,
    {
        if !is_valid_retention(desired_retention) {
            return Err(Error::InvalidRetention);
        }
        let facade = Facade {
            name,
            tasks_pool: Vec::new(),
            tasks_to_recall: Vec::new(),
            desired_retention,
            state: T::SharedState::initial_state(),
        };
        proof {
            assert(facade.tasks() =~= Map::<TaskId, T>::empty());
        }
        Ok(facade)
    }

    /// A facade restored from its parts, as they were saved: every entry keeps
    /// its identifier, and the entries to recall keep their order. The waiting
    /// entries are brought into order, whatever order they were saved in.
    ///
    /// Fails with [`Error::InvalidRetention`] if the desired retention is not in
    /// `(0, 1]`, and else with [`Error::DuplicateId`] if two entries share an
    /// identifier.
    pub fn from_parts(
        name: String,
        tasks_pool: Vec<TaskWrapper<T>>,
        tasks_to_recall: Vec<TaskWrapper<T>>,
        desired_retention: u64,
        state: T::SharedState,
    ) -> (made: Result<Self, Error>)
        requires
            tasks_pool@.len() + tasks_to_recall@.len() <= usize::MAX,
        ensures
            made is Ok <==> valid_retention(desired_retention) && distinct_ids(tasks_pool@)
                && distinct_ids(tasks_to_recall@) && disjoint_ids(tasks_pool@, tasks_to_recall@),
            made matches Err(Error::InvalidRetention) <==> !valid_retention(desired_retention),
            made matches Err(Error::DuplicateId { id }) ==> repeats_id(
                tasks_pool@ + tasks_to_recall@,
                id,
            ),
            made matches Err(e) ==> e is InvalidRetention || e is DuplicateId,
            made matches Ok(facade) ==> {
                &&& facade.wf()
                &&& facade.name() == name@
                &&& facade.retention() == desired_retention
                &&& facade.shared_state() == state
                &&& facade.recall() == tasks_to_recall@
                &&& facade.pool_ids() == id_set(tasks_pool@)
                &&& facade.pool().len() == tasks_pool@.len()
                &&& facade.tasks() == task_map(tasks_pool@).union_prefer_right(
                    task_map(tasks_to_recall@),
                )
            },
    {
        if !is_valid_retention(desired_retention) {
            return Err(Error::InvalidRetention);
        }
        let mut seen: HashSet<TaskId> = HashSet::new();
        let ghost all = tasks_pool@ + tasks_to_recall@;
        if let Some(id) = find_repeat(&tasks_pool, &mut seen) {
            proof {
                let (i, j) = choose|i: int, j: int|
                    0 <= i < j < tasks_pool@.len() && (#[trigger] tasks_pool@[i]).id == id && (
                    #[trigger] tasks_pool@[j]).id == id;
                assert(all[i] == tasks_pool@[i] && all[j] == tasks_pool@[j]);
            }
            return Err(Error::DuplicateId { id });
        }
        if let Some(id) = find_repeat(&tasks_to_recall, &mut seen) {
            proof {
                let n = tasks_pool@.len() as int;
                if has_id(tasks_pool@, id) {
                    let i = index_of_id(tasks_pool@, id);
                    let j = index_of_id(tasks_to_recall@, id);
                    assert(all[i] == tasks_pool@[i] && all[n + j] == tasks_to_recall@[j]);
                } else {
                    let (i, j) = choose|i: int, j: int|
                        0 <= i < j < tasks_to_recall@.len() && (#[trigger] tasks_to_recall@[i]).id
                            == id && (#[trigger] tasks_to_recall@[j]).id == id;
                    assert(all[n + i] == tasks_to_recall@[i] && all[n + j] == tasks_to_recall@[j]);
                }
                if distinct_ids(tasks_to_recall@) && disjoint_ids(tasks_pool@, tasks_to_recall@) {
                    lemma_concat(tasks_pool@, tasks_to_recall@);
                    let (i, j) = choose|i: int, j: int|
                        0 <= i < j < all.len() && (#[trigger] all[i]).id == id && (
                        #[trigger] all[j]).id == id;
                    assert(all[i].id != all[j].id);
                }
            }
            return Err(Error::DuplicateId { id });
        }
        proof {
            assert(disjoint_ids(tasks_pool@, tasks_to_recall@)) by {
                assert forall|i: int, j: int|
                    0 <= i < tasks_pool@.len() && 0 <= j < tasks_to_recall@.len() implies (
                #[trigger] tasks_pool@[i]).id != (#[trigger] tasks_to_recall@[j]).id by {
                    assert(has_id(tasks_pool@, tasks_pool@[i].id));
                    assert(id_set(tasks_pool@).contains(tasks_pool@[i].id));
                }
            }
        }
        let mut facade = Facade { name, tasks_pool, tasks_to_recall, desired_retention, state };
        facade.resort();
        Ok(facade)
    }

    /// The state shared by all tasks.
    pub fn get_state(&self) -> (state: &T::SharedState)
        ensures
            *state == self.shared_state(),
    {
        &self.state
    }

    pub fn get_name(&self) -> (name: &str)
        ensures
            name@ == self.name(),
    {
        self.name.as_str()
    }

    pub fn get_desired_retention(&self) -> (bits: u64)
        ensures
            bits == self.retention(),
    {
        self.desired_retention
    }

    /// The number of tasks, waiting or to recall.
    pub fn tasks_total(&self) -> (total: usize)
        requires
            self.wf(),
        ensures
            total == self.total(),
            total == self.tasks().dom().len(),
    {
        proof {
            self.lemma_ids();
        }
        self.tasks_pool.len() + self.tasks_to_recall.len()
    }

    /// The number of tasks to recall.
    pub fn tasks_to_complete(&self) -> (due: usize)
        requires
            self.wf(),
        ensures
            due == self.recall().len(),
            due == self.recall_ids().len(),
    {
        proof {
            self.lemma_ids();
        }
        self.tasks_to_recall.len()
    }

    /// Whether a task is held under `id`.
    pub fn contains(&self, id: TaskId) -> (held: bool)
        ensures
            held == self.tasks().dom().contains(id),
    {
        proof {
            lemma_id_set_is_dom(self.pool());
            lemma_id_set_is_dom(self.recall());
            assert(self.tasks().dom() =~= id_set(self.pool()).union(id_set(self.recall())));
        }
        find_id(&self.tasks_to_recall, id).is_some() || find_id(&self.tasks_pool, id).is_some()
    }

    /// Whether two facades agree in everything but their tasks.
    pub open spec fn same_settings(&self, other: &Self) -> bool {
        &&& self.name() == other.name()
        &&& self.retention() == other.retention()
        &&& self.shared_state() == other.shared_state()
    }

    /// The first identifier at or after `seed` that neither `self` nor `other`
    /// uses.
    pub fn mint_apart<F: Task>(&self, other: &Facade<F>, seed: TaskId) -> (id: TaskId)
        requires
            self.sound(),
            other.sound(),
        ensures
            id == first_free(self.tasks().dom().union(other.tasks().dom()), seed),
            !self.tasks().dom().contains(id),
            !other.tasks().dom().contains(id),
    {
        let ghost used = self.tasks().dom().union(other.tasks().dom());
        proof {
            self.lemma_ids();
            other.lemma_ids();
            vstd::set_lib::lemma_len_union(self.tasks().dom(), other.tasks().dom());
        }
        let mut candidate: TaskId = seed;
        let ghost mut k: int = 0;
        while self.contains(candidate) || other.contains(candidate)
            invariant
                used == self.tasks().dom().union(other.tasks().dom()),
                used.finite(),
                used.len() < id_space() - 1,
                0 <= k <= used.len(),
                candidate == probe(seed, k),
                forall|j: int| 0 <= j < k ==> used.contains(#[trigger] probe(seed, j)),
            decreases used.len() - k,
        {
            proof {
                lemma_probes_bound(used, seed, k + 1);
            }
            candidate = next_id(candidate);
            proof {
                assert(candidate == probe(seed, k + 1));
                k = k + 1;
            }
        }
        proof {
            assert(first_free_at(used, seed, k));
            lemma_first_free_is(used, seed, k);
        }
        candidate
    }

    /// The first identifier at or after `seed` that is not in use: `seed` itself
    /// unless it is taken.
    pub fn mint(&self, seed: TaskId) -> (id: TaskId)
        requires
            self.sound(),
        ensures
            id == first_free(self.tasks().dom(), seed),
            !self.tasks().dom().contains(id),
            !self.tasks().dom().contains(seed) ==> id == seed,
    {
        proof {
            assert(self.tasks().dom().union(self.tasks().dom()) =~= self.tasks().dom());
        }
        let id = self.mint_apart(self, seed);
        proof {
            if !self.tasks().dom().contains(seed) {
                assert(first_free_at(self.tasks().dom(), seed, 0));
                lemma_first_free_is(self.tasks().dom(), seed, 0);
            }
        }
        id
    }

    /// Puts `task` into the pool under the identifier `id`, at the place that
    /// its next repetition gives it among the waiting tasks.
    fn place(&mut self, task: T, id: TaskId)
        requires
            old(self).wf(),
            !old(self).tasks().dom().contains(id),
            old(self).total() < usize::MAX,
        ensures
            final(self).wf(),
            final(self).same_settings(old(self)),
            final(self).tasks() == old(self).tasks().insert(id, task),
            final(self).recall() == old(self).recall(),
            final(self).pool_ids() == old(self).pool_ids().insert(id),
            final(self).pool().len() == old(self).pool().len() + 1,
            final(self).pool() == old(self).pool().insert(
                rank(
                    old(self).pool(),
                    &old(self).shared_state(),
                    old(self).retention(),
                    task.due(&old(self).shared_state(), old(self).retention()) as int,
                ),
                TaskWrapper { task, id },
            ),
    {
        let entry = TaskWrapper { task, id };
        proof {
            lemma_id_set_is_dom(self.pool());
            lemma_id_set_is_dom(self.recall());
            let k = rank(
                self.pool(),
                &self.shared_state(),
                self.retention(),
                entry.due(&self.shared_state(), self.retention()) as int,
            );
            assert(0 <= k <= self.pool().len()) by {
                lemma_rank_in_range(
                    self.pool(),
                    &self.shared_state(),
                    self.retention(),
                    entry.due(&self.shared_state(), self.retention()) as int,
                );
            }
            assert(!has_id(self.pool(), id));
            assert(!has_id(self.recall(), id));
            lemma_insert(self.pool(), k, entry);
            let grown = self.pool().insert(k, entry);
            assert(disjoint_ids(grown, self.recall())) by {
                assert forall|i: int, j: int|
                    0 <= i < grown.len() && 0 <= j < self.recall().len() implies (
                #[trigger] grown[i]).id != (#[trigger] self.recall()[j]).id by {
                    if i != k {
                        let pi = if i < k { i } else { i - 1 };
                        assert(grown[i] == self.pool()[pi]);
                    }
                }
            }
            assert(task_map(grown).union_prefer_right(task_map(self.recall()))
                =~= self.tasks().insert(id, task));
        }
        insert_by_due(&mut self.tasks_pool, entry, &self.state, self.desired_retention);
    }

    /// Puts an entry into the pool. It keeps its identifier if that is free, and
    /// gets the first free one after it otherwise, which is returned.
    pub fn insert_entry(&mut self, entry: TaskWrapper<T>) -> (id: TaskId)
        requires
            old(self).wf(),
            old(self).total() < usize::MAX,
        ensures
            final(self).wf(),
            final(self).same_settings(old(self)),
            id == first_free(old(self).tasks().dom(), entry.id),
            !old(self).tasks().dom().contains(id),
            !old(self).tasks().dom().contains(entry.id) ==> id == entry.id,
            final(self).tasks() == old(self).tasks().insert(id, entry.task),
            final(self).recall() == old(self).recall(),
            final(self).pool().len() == old(self).pool().len() + 1,
            final(self).pool() == old(self).pool().insert(
                rank(
                    old(self).pool(),
                    &old(self).shared_state(),
                    old(self).retention(),
                    entry.due(&old(self).shared_state(), old(self).retention()) as int,
                ),
                TaskWrapper { task: entry.task, id },
            ),
    {
        let id = self.mint(entry.id);
        self.place(entry.task, id);
        id
    }

    /// Takes a task in under a new identifier. It joins the pool; the batch to
    /// recall is not touched.
    pub fn insert(&mut self, task: T)
        requires
            old(self).wf(),
            old(self).total() < usize::MAX,
        ensures
            final(self).wf(),
            final(self).same_settings(old(self)),
            final(self).recall() == old(self).recall(),
            final(self).pool().len() == old(self).pool().len() + 1,
            exists|id: TaskId|
                !old(self).tasks().dom().contains(id) && #[trigger] final(self).tasks()
                    == old(self).tasks().insert(id, task),
    {
        let entry = TaskWrapper::new(task);
        let ghost before = *self;
        let id = self.insert_entry(entry);
        proof {
            assert(!before.tasks().dom().contains(id) && self.tasks() == before.tasks().insert(
                id,
                task,
            ));
        }
    }

    /// Builds a task from `input` and takes it in as [`Facade::insert`] does.
    pub fn create_task(&mut self, input: s_text_input_f::BlocksWithAnswer)
        requires
            old(self).wf(),
            old(self).total() < usize::MAX,
        ensures
            final(self).wf(),
            final(self).same_settings(old(self)),
            final(self).recall() == old(self).recall(),
            final(self).pool().len() == old(self).pool().len() + 1,
            exists|id: TaskId, task: T|
                task.made_from(input) && !old(self).tasks().dom().contains(id)
                    && #[trigger] final(self).tasks() == old(self).tasks().insert(id, task),
    {
        let task = T::new(input);
        let ghost built = task;
        let ghost before = *self;
        self.insert(task);
        proof {
            let id = choose|id: TaskId|
                !before.tasks().dom().contains(id) && #[trigger] self.tasks()
                    == before.tasks().insert(id, built);
            assert(built.made_from(input) && !before.tasks().dom().contains(id) && self.tasks()
                == before.tasks().insert(id, built));
        }
    }

    /// The identifiers of the tasks whose next repetition is no later than
    /// `now + lookahead`.
    pub open spec fn due_ids(&self, now: i128, lookahead: u64) -> Set<TaskId> {
        Set::new(
            |id: TaskId| self.tasks().dom().contains(id) && due_by(self.due_of(id), now, lookahead),
        )
    }

    /// The number of waiting tasks whose next repetition is no later than
    /// `now + lookahead`. The pool is in order, so they are its first entries.
    pub open spec fn due_count(&self, now: i128, lookahead: u64) -> int {
        rank(
            self.pool(),
            &self.shared_state(),
            self.retention(),
            now as int + lookahead as int,
        )
    }

    /// Each entry is found in [`Facade::tasks`] under its identifier.
    pub proof fn lemma_lookup(&self)
        requires
            self.sound(),
        ensures
            forall|i: int|
                0 <= i < self.pool().len() ==> self.tasks().dom().contains(
                    (#[trigger] self.pool()[i]).id,
                ) && self.tasks()[self.pool()[i].id] == self.pool()[i].task,
            forall|i: int|
                0 <= i < self.recall().len() ==> self.tasks().dom().contains(
                    (#[trigger] self.recall()[i]).id,
                ) && self.tasks()[self.recall()[i].id] == self.recall()[i].task,
    {
        lemma_disjoint(self.pool(), self.recall());
        assert forall|i: int| 0 <= i < self.pool().len() implies self.tasks().dom().contains(
            (#[trigger] self.pool()[i]).id,
        ) && self.tasks()[self.pool()[i].id] == self.pool()[i].task by {
            lemma_entry(self.pool(), i);
        }
        assert forall|i: int| 0 <= i < self.recall().len() implies self.tasks().dom().contains(
            (#[trigger] self.recall()[i]).id,
        ) && self.tasks()[self.recall()[i].id] == self.recall()[i].task by {
            lemma_entry(self.recall(), i);
        }
    }

    /// Drops the task under `id`, looking in the batch to recall first and in the
    /// pool after that. Returns whether there was such a task.
    pub fn remove(&mut self, id: TaskId) -> (removed: bool)
        requires
            old(self).wf(),
        ensures
            final(self).wf(),
            final(self).same_settings(old(self)),
            removed == old(self).tasks().dom().contains(id),
            final(self).tasks() == old(self).tasks().remove(id),
            final(self).recall_ids() == old(self).recall_ids().remove(id),
            final(self).pool_ids() == old(self).pool_ids().remove(id),
            final(self).total() == old(self).total() - if removed { 1int } else { 0int },
            final(self).recall() == without_id(old(self).recall(), id),
            final(self).pool() == if has_id(old(self).recall(), id) {
                old(self).pool()
            } else {
                without_id(old(self).pool(), id)
            },
    {
        proof {
            lemma_disjoint(self.pool(), self.recall());
            lemma_id_set_is_dom(self.pool());
            lemma_id_set_is_dom(self.recall());
        }
        let ghost pool = self.pool();
        let ghost recall = self.recall();
        match find_id(&self.tasks_to_recall, id) {
            Some(at) => {
                proof {
                    lemma_entry(recall, at as int);
                    lemma_remove(recall, at as int);
                    let rest = recall.remove(at as int);
                    assert(disjoint_ids(pool, rest)) by {
                        assert forall|i: int, j: int|
                            0 <= i < pool.len() && 0 <= j < rest.len() implies (
                        #[trigger] pool[i]).id != (#[trigger] rest[j]).id by {
                            let rj = if j < at { j } else { j + 1 };
                            assert(rest[j] == recall[rj]);
                        }
                    }
                    assert(task_map(pool).union_prefer_right(task_map(rest)) =~= task_map(
                        pool,
                    ).union_prefer_right(task_map(recall)).remove(id));
                    assert(id_set(pool).remove(id) =~= id_set(pool));
                    assert(first_index_of_id(recall, id) == at);
                }
                self.tasks_to_recall.remove(at);
                true
            },
            None => match find_id(&self.tasks_pool, id) {
                Some(at) => {
                    proof {
                        lemma_entry(pool, at as int);
                        lemma_remove(pool, at as int);
                        lemma_sorted_parts(pool, &self.shared_state(), self.retention(), at as int);
                        let rest = pool.remove(at as int);
                        assert(disjoint_ids(rest, recall)) by {
                            assert forall|i: int, j: int|
                                0 <= i < rest.len() && 0 <= j < recall.len() implies (
                            #[trigger] rest[i]).id != (#[trigger] recall[j]).id by {
                                let pi = if i < at { i } else { i + 1 };
                                assert(rest[i] == pool[pi]);
                            }
                        }
                        assert(task_map(rest).union_prefer_right(task_map(recall)) =~= task_map(
                            pool,
                        ).union_prefer_right(task_map(recall)).remove(id));
                        assert(id_set(recall).remove(id) =~= id_set(recall));
                        assert(first_index_of_id(pool, id) == at);
                    }
                    self.tasks_pool.remove(at);
                    true
                },
                None => {
                    proof {
                        assert(self.tasks().remove(id) =~= self.tasks());
                        assert(id_set(recall).remove(id) =~= id_set(recall));
                        assert(id_set(pool).remove(id) =~= id_set(pool));
                    }
                    false
                },
            },
        }
    }

    /// Brings the pool into ascending order of next repetitions, as the shared
    /// state and the desired retention now give them.
    fn resort(&mut self)
        requires
            old(self).sound(),
        ensures
            final(self).wf(),
            final(self).same_settings(old(self)),
            final(self).tasks() == old(self).tasks(),
            final(self).recall() == old(self).recall(),
            final(self).pool_ids() == old(self).pool_ids(),
            final(self).pool().len() == old(self).pool().len(),
    {
        let ghost pool = self.pool();
        let ghost recall = self.recall();
        sort_by_due(&mut self.tasks_pool, &self.state, self.desired_retention);
        proof {
            lemma_id_set_is_dom(pool);
            lemma_id_set_is_dom(self.pool());
            lemma_disjoint(pool, recall);
            assert(disjoint_ids(self.pool(), recall)) by {
                assert forall|i: int, j: int|
                    0 <= i < self.pool().len() && 0 <= j < recall.len() implies (
                #[trigger] self.pool()[i]).id != (#[trigger] recall[j]).id by {
                    lemma_entry(self.pool(), i);
                    lemma_entry(recall, j);
                    assert(has_id(pool, self.pool()[i].id));
                    assert(has_id(recall, recall[j].id));
                }
            }
        }
    }

    /// Moves the waiting tasks whose next repetition is no later than
    /// `now + lookahead` into the batch to recall. The pool is in order, so they
    /// are the entries at its front.
    pub fn advance_due(&mut self, now: i128, lookahead: u64)
        requires
            old(self).wf(),
        ensures
            final(self).wf(),
            final(self).same_settings(old(self)),
            final(self).tasks() == old(self).tasks(),
            final(self).total() == old(self).total(),
            final(self).recall_ids() == old(self).recall_ids().union(
                old(self).due_ids(now, lookahead),
            ),
            final(self).pool_ids() == old(self).pool_ids().difference(
                old(self).due_ids(now, lookahead),
            ),
            0 <= old(self).due_count(now, lookahead) <= old(self).pool().len(),
            final(self).recall() == old(self).recall() + old(self).pool().subrange(
                0,
                old(self).due_count(now, lookahead),
            ),
            final(self).pool() == old(self).pool().subrange(
                old(self).due_count(now, lookahead),
                old(self).pool().len() as int,
            ),
            forall|id: TaskId|
                #![trigger final(self).recall_ids().contains(id)]
                final(self).recall_ids().contains(id) && !old(self).recall_ids().contains(id)
                    ==> due_by(final(self).due_of(id), now, lookahead),
            forall|id: TaskId|
                #![trigger final(self).pool_ids().contains(id)]
                final(self).pool_ids().contains(id) ==> !due_by(
                    final(self).due_of(id),
                    now,
                    lookahead,
                ),
    {
        let ghost pool = self.pool();
        let ghost recall = self.recall();
        let ghost before = *self;
        let span: i128 = lookahead as i128;
        let k: usize = if now > i128::MAX - span {
            self.tasks_pool.len()
        } else {
            search_due(&self.tasks_pool, now + span, &self.state, self.desired_retention)
        };
        proof {
            lemma_rank_is(
                pool,
                &self.shared_state(),
                self.retention(),
                now as int + lookahead as int,
                k as int,
            );
        }
        let mut rest = self.tasks_pool.split_off(k);
        self.tasks_to_recall.append(&mut self.tasks_pool);
        core::mem::swap(&mut self.tasks_pool, &mut rest);
        proof {
            let head = pool.subrange(0, k as int);
            let tail = pool.subrange(k as int, pool.len() as int);
            assert(self.pool() == tail);
            assert(self.recall() == recall + head);
            lemma_split(pool, k as int);
            lemma_sorted_parts(pool, &self.shared_state(), self.retention(), k as int);
            assert(disjoint_ids(recall, head)) by {
                assert forall|i: int, j: int|
                    0 <= i < recall.len() && 0 <= j < head.len() implies (#[trigger] recall[i]).id
                    != (#[trigger] head[j]).id by {
                    assert(head[j] == pool[j]);
                }
            }
            lemma_concat(recall, head);
            lemma_concat(head, tail);
            assert(disjoint_ids(tail, recall + head)) by {
                assert forall|i: int, j: int|
                    0 <= i < tail.len() && 0 <= j < (recall + head).len() implies (
                #[trigger] tail[i]).id != (#[trigger] (recall + head)[j]).id by {
                    assert(tail[i] == pool[k + i]);
                    if j < recall.len() {
                        assert((recall + head)[j] == recall[j]);
                    } else {
                        assert((recall + head)[j] == pool[j - recall.len()]);
                    }
                }
            }
            lemma_disjoint(pool, recall);
            lemma_disjoint(head, tail);
            lemma_disjoint(recall, head);
            lemma_disjoint(tail, recall + head);
            lemma_id_set_is_dom(pool);
            lemma_id_set_is_dom(recall);
            lemma_id_set_is_dom(head);
            lemma_id_set_is_dom(tail);
            assert(self.tasks() =~= before.tasks());
            before.lemma_lookup();
            let moved = before.due_ids(now, lookahead);
            assert forall|id: TaskId| id_set(head).contains(id) implies moved.contains(id) by {
                let i = index_of_id(head, id);
                assert(head[i] == pool[i]);
            }
            assert forall|id: TaskId| id_set(tail).contains(id) implies !moved.contains(id) by {
                let i = index_of_id(tail, id);
                assert(tail[i] == pool[k + i]);
            }
            assert forall|id: TaskId| moved.contains(id) && !id_set(recall).contains(
                id,
            ) implies id_set(head).contains(id) by {
                let i = index_of_id(pool, id);
                if i >= k {
                    assert(pool[i].due(&self.shared_state(), self.retention()) > now + lookahead);
                }
                assert(head[i] == pool[i]);
            }
            assert(id_set(pool) =~= id_set(head).union(id_set(tail)));
            assert(self.recall_ids() =~= before.recall_ids().union(moved));
            assert(self.pool_ids() =~= before.pool_ids().difference(moved));
        }
    }

    /// Moves the waiting tasks that are due within [`LOOKAHEAD`] of `now` into
    /// the batch to recall.
    pub fn find_tasks_to_recall_at(&mut self, now: i128)
        requires
            old(self).wf(),
        ensures
            final(self).wf(),
            final(self).same_settings(old(self)),
            final(self).tasks() == old(self).tasks(),
            final(self).total() == old(self).total(),
            final(self).recall_ids() == old(self).recall_ids().union(
                old(self).due_ids(now, LOOKAHEAD),
            ),
            final(self).pool_ids() == old(self).pool_ids().difference(
                old(self).due_ids(now, LOOKAHEAD),
            ),
            0 <= old(self).due_count(now, LOOKAHEAD) <= old(self).pool().len(),
            final(self).recall() == old(self).recall() + old(self).pool().subrange(
                0,
                old(self).due_count(now, LOOKAHEAD),
            ),
            final(self).pool() == old(self).pool().subrange(
                old(self).due_count(now, LOOKAHEAD),
                old(self).pool().len() as int,
            ),
    {
        self.advance_due(now, LOOKAHEAD);
    }

    /// Moves the waiting tasks that are due within [`LOOKAHEAD`] of the current
    /// instant into the batch to recall. The instant is read from the system
    /// clock, so the contract can only say that there is one.
    pub fn find_tasks_to_recall(&mut self)
        requires
            old(self).wf(),
        ensures
            final(self).wf(),
            final(self).same_settings(old(self)),
            final(self).tasks() == old(self).tasks(),
            final(self).total() == old(self).total(),
            exists|now: i128|
                {
                    &&& final(self).recall_ids() == old(self).recall_ids().union(
                        #[trigger] old(self).due_ids(now, LOOKAHEAD),
                    )
                    &&& final(self).pool_ids() == old(self).pool_ids().difference(
                        old(self).due_ids(now, LOOKAHEAD),
                    )
                },
    {
        let now = current_instant();
        self.find_tasks_to_recall_at(now);
    }

    /// Takes the entry at `index` out of the batch to recall. The last entry of
    /// the batch moves into its place.
    pub fn take_task(&mut self, index: usize) -> (taken: TaskWrapper<T>)
        requires
            old(self).wf(),
            index < old(self).recall().len(),
        ensures
            final(self).wf(),
            final(self).same_settings(old(self)),
            taken == old(self).recall()[index as int],
            old(self).tasks().dom().contains(taken.id),
            old(self).tasks()[taken.id] == taken.task,
            old(self).recall_ids().contains(taken.id),
            final(self).pool() == old(self).pool(),
            final(self).recall() == old(self).recall().update(
                index as int,
                old(self).recall().last(),
            ).drop_last(),
            final(self).tasks() == old(self).tasks().remove(taken.id),
            final(self).recall_ids() == old(self).recall_ids().remove(taken.id),
    {
        let ghost pool = self.pool();
        let ghost recall = self.recall();
        proof {
            self.lemma_lookup();
            lemma_entry(recall, index as int);
            lemma_swap_remove(recall, index as int);
            lemma_disjoint(pool, recall);
            lemma_id_set_is_dom(pool);
            lemma_id_set_is_dom(recall);
            let rest = recall.update(index as int, recall.last()).drop_last();
            assert(disjoint_ids(pool, rest)) by {
                assert forall|i: int, j: int|
                    0 <= i < pool.len() && 0 <= j < rest.len() implies (#[trigger] pool[i]).id != (
                #[trigger] rest[j]).id by {
                    let rj = if j == index { recall.len() - 1 } else { j };
                    assert(rest[j] == recall[rj]);
                }
            }
            assert(task_map(pool).union_prefer_right(task_map(rest)) =~= self.tasks().remove(
                recall[index as int].id,
            ));
        }
        self.tasks_to_recall.swap_remove(index)
    }

    /// Takes a uniformly drawn entry out of the batch to recall, if there is any.
    pub fn take_random_task(&mut self) -> (taken: Option<TaskWrapper<T>>)
        requires
            old(self).wf(),
        ensures
            final(self).wf(),
            final(self).same_settings(old(self)),
            final(self).pool() == old(self).pool(),
            taken is None <==> old(self).recall().len() == 0,
            taken is None ==> final(self).recall() == old(self).recall(),
            taken matches Some(entry) ==> {
                &&& old(self).recall().contains(entry)
                &&& old(self).tasks().dom().contains(entry.id)
                &&& old(self).tasks()[entry.id] == entry.task
                &&& final(self).tasks() == old(self).tasks().remove(entry.id)
                &&& final(self).recall_ids() == old(self).recall_ids().remove(entry.id)
            },
    {
        if self.tasks_to_recall.is_empty() {
            return None;
        }
        let mut rng = thread_rng();
        let index = gen_index(&mut rng, self.tasks_to_recall.len());
        Some(self.take_task(index))
    }

    /// The next repetition of the first waiting task, which is the earliest of
    /// the pool.
    pub open spec fn next_due(&self) -> i128
        recommends
            self.pool().len() > 0,
    {
        self.pool()[0].due(&self.shared_state(), self.retention())
    }

    /// No waiting task is due before [`Facade::next_due`], and some waiting task
    /// is due then.
    pub proof fn lemma_next_due(&self)
        requires
            self.wf(),
            self.pool().len() > 0,
        ensures
            self.pool_ids().contains(self.pool()[0].id),
            self.due_of(self.pool()[0].id) == self.next_due(),
            forall|id: TaskId| self.pool_ids().contains(id) ==> self.next_due() <= self.due_of(id),
    {
        self.lemma_lookup();
        assert forall|id: TaskId| self.pool_ids().contains(id) implies self.next_due()
            <= self.due_of(id) by {
            let i = index_of_id(self.pool(), id);
            if i > 0 {
                assert(self.pool()[0].due(&self.shared_state(), self.retention())
                    <= self.pool()[i].due(&self.shared_state(), self.retention()));
            }
        }
    }

    /// How long from `now` until the next task is due: nothing while there are
    /// tasks to recall, nothing when no task waits or the first is due already,
    /// and else the span until the first waiting task is due.
    pub open spec fn span_until_next(&self, now: i128) -> Option<u128> {
        if self.recall().len() > 0 || self.pool().len() == 0 || self.next_due() < now {
            None
        } else {
            Some((self.next_due() - now) as u128)
        }
    }

    /// Computes [`Facade::span_until_next`].
    pub fn until_next_repetition_at(&self, now: i128) -> (span: Option<u128>)
        requires
            self.wf(),
        ensures
            span == self.span_until_next(now),
    {
        if self.tasks_to_recall.len() > 0 {
            return None;
        }
        if self.tasks_pool.len() == 0 {
            return None;
        }
        let at = self.tasks_pool[0].next_repetition(&self.state, self.desired_retention);
        if at < now {
            None
        } else {
            Some(time_until(at, now))
        }
    }

    /// [`Facade::until_next_repetition_at`] for the current instant, read from
    /// the system clock.
    pub fn until_next_repetition(&self) -> (span: Option<u128>)
        requires
            self.wf(),
        ensures
            self.recall().len() > 0 || self.pool().len() == 0 ==> span is None,
            exists|now: i128| span == #[trigger] self.span_until_next(now),
    {
        let now = current_instant();
        self.until_next_repetition_at(now)
    }

    /// Every task stands where its next repetition asks for at `now`: to recall
    /// if it is due by then, in the pool if it is due later.
    pub open spec fn settled_at(&self, now: i128) -> bool {
        &&& self.recall_ids() == self.due_ids(now, 0)
        &&& self.pool_ids() == self.tasks().dom().difference(self.due_ids(now, 0))
        &&& forall|id: TaskId|
            #![trigger self.recall_ids().contains(id)]
            self.recall_ids().contains(id) ==> self.due_of(id) <= now
        &&& forall|id: TaskId|
            #![trigger self.pool_ids().contains(id)]
            self.pool_ids().contains(id) ==> self.due_of(id) > now
    }

    /// Sets every task in the partition that its next repetition asks for at
    /// `now`: into the batch to recall if it is due by then, into the pool if it
    /// is due later.
    pub fn reload_all_tasks_timings_at(&mut self, now: i128)
        requires
            old(self).wf(),
        ensures
            final(self).wf(),
            final(self).same_settings(old(self)),
            final(self).tasks() == old(self).tasks(),
            final(self).total() == old(self).total(),
            final(self).settled_at(now),
    {
        let ghost before = *self;
        let mut i: usize = 0;
        while i < self.tasks_to_recall.len()
            invariant
                self.wf(),
                self.same_settings(&before),
                self.tasks() == before.tasks(),
                self.total() == before.total(),
                i <= self.recall().len(),
                forall|j: int|
                    0 <= j < i ==> due_by(
                        (#[trigger] self.recall()[j]).due(&self.shared_state(), self.retention()),
                        now,
                        0,
                    ),
            decreases self.recall().len() - i,
        {
            let at = self.tasks_to_recall[i].next_repetition(&self.state, self.desired_retention);
            if is_due_by(at, now, 0) {
                i += 1;
            } else {
                let ghost all = self.tasks();
                let entry = self.take_task(i);
                proof {
                    assert(self.tasks().insert(entry.id, entry.task) =~= all);
                }
                self.place(entry.task, entry.id);
            }
        }
        let ghost sorted = *self;
        self.advance_due(now, 0);
        proof {
            sorted.lemma_lookup();
            sorted.lemma_ids();
            let due = before.due_ids(now, 0);
            assert(sorted.due_ids(now, 0) =~= due);
            assert forall|id: TaskId| sorted.recall_ids().contains(id) implies due.contains(id) by {
                let j = index_of_id(sorted.recall(), id);
                assert(due_by(
                    sorted.recall()[j].due(&sorted.shared_state(), sorted.retention()),
                    now,
                    0,
                ));
            }
            assert(self.recall_ids() =~= due);
            assert(self.pool_ids() =~= before.tasks().dom().difference(due));
            assert(self.due_ids(now, 0) =~= due);
        }
    }

    /// Sets every task in the partition that its next repetition asks for at the
    /// current instant, read from the system clock.
    pub fn reload_all_tasks_timings(&mut self)
        requires
            old(self).wf(),
        ensures
            final(self).wf(),
            final(self).same_settings(old(self)),
            final(self).tasks() == old(self).tasks(),
            final(self).total() == old(self).total(),
            exists|now: i128| #[trigger] final(self).settled_at(now),
    {
        let now = current_instant();
        self.reload_all_tasks_timings_at(now);
    }

    /// Takes an entry back in after its review, as the outcome of the review
    /// asks: after a success into the pool, at the place that its new next
    /// repetition gives it, and after a failure into the batch to recall, so that
    /// no task is lost by a failed interaction. The pool is brought into order
    /// first, because the review may have changed the shared state.
    pub fn settle(
        &mut self,
        entry: TaskWrapper<T>,
        outcome: Result<(), std::io::Error>,
    ) -> (settled: Result<(), Error>)
        requires
            old(self).sound(),
            !old(self).tasks().dom().contains(entry.id),
            old(self).total() < usize::MAX,
        ensures
            final(self).wf(),
            final(self).same_settings(old(self)),
            final(self).tasks() == old(self).tasks().insert(entry.id, entry.task),
            final(self).total() == old(self).total() + 1,
            match outcome {
                Ok(_) => {
                    &&& settled is Ok
                    &&& final(self).recall() == old(self).recall()
                    &&& final(self).recall_ids() == old(self).recall_ids()
                    &&& final(self).pool_ids() == old(self).pool_ids().insert(entry.id)
                },
                Err(failure) => {
                    &&& settled == Err::<(), Error>(Error::IO(failure))
                    &&& final(self).recall() == old(self).recall().push(entry)
                    &&& final(self).recall_ids() == old(self).recall_ids().insert(entry.id)
                    &&& final(self).pool_ids() == old(self).pool_ids()
                },
            },
    {
        self.resort();
        match outcome {
            Ok(_) => {
                self.place(entry.task, entry.id);
                Ok(())
            },
            Err(failure) => {
                let ghost pool = self.pool();
                let ghost recall = self.recall();
                proof {
                    lemma_id_set_is_dom(pool);
                    lemma_id_set_is_dom(recall);
                    assert(!has_id(pool, entry.id));
                    assert(!has_id(recall, entry.id));
                    lemma_push(recall, entry);
                    assert(disjoint_ids(pool, recall.push(entry))) by {
                        assert forall|i: int, j: int|
                            0 <= i < pool.len() && 0 <= j < recall.push(entry).len() implies (
                        #[trigger] pool[i]).id != (#[trigger] recall.push(entry)[j]).id by {
                            if j < recall.len() {
                                assert(recall.push(entry)[j] == recall[j]);
                            }
                        }
                    }
                    assert(task_map(pool).union_prefer_right(task_map(recall.push(entry)))
                        =~= self.tasks().insert(entry.id, entry.task));
                }
                self.tasks_to_recall.push(entry);
                Err(Error::IO(failure))
            },
        }
    }

    /// The identifiers of the tasks that stand to recall once those due within
    /// [`LOOKAHEAD`] of `now` have joined the batch.
    pub open spec fn batch(&self, now: i128) -> Set<TaskId> {
        self.recall_ids().union(self.due_ids(now, LOOKAHEAD))
    }

    /// The task under `id` after a call is what a review made of the task under
    /// `id` before the call (`self` is the facade before it): a review with the
    /// shared state and the desired retention of the facade, under the identifier
    /// `id`, which succeeded or failed.
    pub open spec fn reviews(&self, after: &Self, id: TaskId, success: bool) -> bool {
        after.tasks()[id].reviewed(
            &self.tasks()[id],
            &self.shared_state(),
            &after.shared_state(),
            self.retention(),
            id,
            success,
        )
    }

    /// Runs the review of the entry at `index` of the batch to recall.
    ///
    /// The task is reviewed under its identifier, with the shared state and the
    /// desired retention of the facade. After a success it waits in the pool
    /// with its new history. After a failed interaction it stands in the batch
    /// to recall again, unchanged. Either way the review may have changed the
    /// shared state.
    pub fn review_at<I: Interaction>(&mut self, index: usize, interaction: &mut I) -> (done: Result<
        (),
        Error,
    >)
        requires
            old(self).wf(),
            index < old(self).recall().len(),
        ensures
            final(self).wf(),
            final(self).name() == old(self).name(),
            final(self).retention() == old(self).retention(),
            final(self).total() == old(self).total(),
            final(self).tasks().dom() == old(self).tasks().dom(),
            final(self).tasks().remove(old(self).recall()[index as int].id)
                == old(self).tasks().remove(old(self).recall()[index as int].id),
            done is Ok ==> final(self).recall_ids() == old(self).recall_ids().remove(
                old(self).recall()[index as int].id,
            ),
            done matches Err(e) ==> {
                &&& e is IO
                &&& final(self).tasks() == old(self).tasks()
                &&& final(self).recall_ids() == old(self).recall_ids()
            },
            old(self).reviews(final(self), old(self).recall()[index as int].id, done is Ok),
    {
        let ghost before = *self;
        proof {
            self.lemma_ids();
        }
        let mut entry = self.take_task(index);
        let ghost taken = entry;
        let ghost rest = *self;
        let id = entry.id;
        let outcome = entry.task.complete(&mut self.state, self.desired_retention, id, interaction);
        proof {
            rest.lemma_ids();
            assert(self.pool() == rest.pool());
            assert(self.recall() == rest.recall());
            assert(self.tasks() == rest.tasks());
            assert(rest.tasks().insert(id, entry.task).dom() =~= before.tasks().dom());
            assert(rest.tasks().insert(id, entry.task).remove(id) =~= before.tasks().remove(id));
            assert(rest.recall_ids().insert(id) =~= before.recall_ids());
            if outcome is Err {
                assert(entry.task == taken.task);
                assert(rest.tasks().insert(id, entry.task) =~= before.tasks());
            }
        }
        self.settle(entry, outcome)
    }

    /// What one call of [`Facade::complete_task_at`] at `now` does: `self` is the
    /// facade before the call, `after` the facade after it, `done` the result.
    pub open spec fn completes(&self, after: &Self, now: i128, done: Result<(), Error>) -> bool {
        &&& after.name() == self.name()
        &&& after.retention() == self.retention()
        &&& after.total() == self.total()
        &&& after.tasks().dom() == self.tasks().dom()
        &&& (done matches Err(Error::NoTask)) <==> self.total() == 0
        &&& (done matches Err(Error::NoTaskToComplete { .. })) <==> self.batch(now).is_empty()
            && self.pool().len() > 0
        &&& done matches Err(Error::NoTaskToComplete { time_until_next_repetition }) ==> {
            &&& time_until_next_repetition == wait(self.next_due(), now)
            &&& time_until_next_repetition > LOOKAHEAD
        }
        &&& done matches Err(e) ==> e is NoTask || e is NoTaskToComplete || e is IO
        &&& self.batch(now).is_empty() ==> {
            &&& after.pool() == self.pool()
            &&& after.recall() == self.recall()
            &&& after.shared_state() == self.shared_state()
        }
        &&& !self.batch(now).is_empty() ==> exists|id: TaskId|
            {
                &&& #[trigger] self.batch(now).contains(id)
                &&& self.reviews(after, id, done is Ok)
                &&& after.tasks().remove(id) == self.tasks().remove(id)
                &&& after.recall_ids() == if done is Ok {
                    self.batch(now).remove(id)
                } else {
                    self.batch(now)
                }
            }
        &&& done matches Err(Error::IO(_)) ==> after.tasks() == self.tasks()
    }

    /// Completes one review at the instant `now`.
    ///
    /// The tasks due within [`LOOKAHEAD`] of `now` join the batch to recall.
    /// If the batch then holds a task, one is drawn uniformly and reviewed, see
    /// [`Facade::review_at`]: the call ends in success or in the failure of the
    /// interaction. If the batch is empty the facade stays as it was, and the
    /// call fails: with [`Error::NoTask`] if there is no task at all, and else
    /// with [`Error::NoTaskToComplete`] and the span until the first waiting task
    /// is due.
    pub fn complete_task_at<I: Interaction>(&mut self, now: i128, interaction: &mut I) -> (done:
        Result<(), Error>)
        requires
            old(self).wf(),
        ensures
            final(self).wf(),
            old(self).completes(final(self), now, done),
    {
        let ghost before = *self;
        proof {
            before.lemma_ids();
            before.lemma_lookup();
        }
        self.find_tasks_to_recall_at(now);
        let ghost advanced = *self;
        proof {
            advanced.lemma_ids();
            if before.batch(now).is_empty() {
                assert(advanced.recall_ids() =~= Set::<TaskId>::empty());
                assert(advanced.recall().len() == 0);
                assert(before.recall().len() == 0);
                assert(advanced.pool() =~= before.pool());
                assert(advanced.recall() =~= before.recall());
            } else {
                assert(advanced.recall().len() > 0) by {
                    if advanced.recall().len() == 0 {
                        assert(advanced.recall_ids().len() == 0);
                        assert(advanced.recall_ids() =~= Set::<TaskId>::empty());
                    }
                }
            }
        }
        let waiting = self.tasks_to_recall.len();
        if waiting > 0 {
            let mut rng = thread_rng();
            let index = gen_index(&mut rng, waiting);
            let ghost id = self.recall()[index as int].id;
            proof {
                lemma_entry(self.recall(), index as int);
                assert(before.batch(now).contains(id));
                assert(before.pool().len() + before.recall().len() > 0) by {
                    assert(before.tasks().dom().contains(id));
                    if before.tasks().dom().len() == 0 {
                        assert(before.tasks().dom() =~= Set::<TaskId>::empty());
                    }
                }
            }
            let done = self.review_at(index, interaction);
            proof {
                assert(before.reviews(self, id, done is Ok));
                assert(self.recall_ids() =~= if done is Ok {
                    before.batch(now).remove(id)
                } else {
                    before.batch(now)
                });
            }
            done
        } else if self.tasks_pool.len() == 0 {
            Err(Error::NoTask)
        } else {
            let at = self.tasks_pool[0].next_repetition(&self.state, self.desired_retention);
            proof {
                assert(before.pool_ids().contains(before.pool()[0].id)) by {
                    lemma_entry(before.pool(), 0);
                }
                assert(!before.due_ids(now, LOOKAHEAD).contains(before.pool()[0].id));
            }
            Err(Error::NoTaskToComplete { time_until_next_repetition: time_until(at, now) })
        }
    }

    /// Completes one review at the current instant, read from the system
    /// clock, as [`Facade::complete_task_at`] does.
    pub fn complete_task<I: Interaction>(&mut self, interaction: &mut I) -> (done: Result<
        (),
        Error,
    >)
        requires
            old(self).wf(),
        ensures
            final(self).wf(),
            final(self).name() == old(self).name(),
            final(self).retention() == old(self).retention(),
            final(self).total() == old(self).total(),
            final(self).tasks().dom() == old(self).tasks().dom(),
            done matches Err(Error::NoTask) <==> old(self).total() == 0,
            done matches Err(Error::IO(_)) ==> final(self).tasks() == old(self).tasks(),
            exists|now: i128| #[trigger] old(self).completes(final(self), now, done),
    {
        let now = current_instant();
        self.complete_task_at(now, interaction)
    }

    /// Sets the desired retention and, because every next repetition depends on
    /// it, brings the pool into the new order and sets every task in the
    /// partition that its new next repetition asks for at `now`. Fails with
    /// [`Error::InvalidRetention`], and changes nothing, exactly when the desired
    /// retention is not in `(0, 1]`.
    pub fn set_desired_retention_at(&mut self, desired_retention: u64, now: i128) -> (done: Result<
        (),
        Error,
    >)
        requires
            old(self).wf(),
        ensures
            final(self).wf(),
            valid_retention(desired_retention) <==> done is Ok,
            done matches Err(e) ==> e is InvalidRetention,
            done is Err ==> {
                &&& final(self).same_settings(old(self))
                &&& final(self).pool() == old(self).pool()
                &&& final(self).recall() == old(self).recall()
            },
            done is Ok ==> {
                &&& final(self).retention() == desired_retention
                &&& final(self).name() == old(self).name()
                &&& final(self).shared_state() == old(self).shared_state()
                &&& final(self).tasks() == old(self).tasks()
                &&& final(self).total() == old(self).total()
                &&& final(self).settled_at(now)
            },
    {
        if !is_valid_retention(desired_retention) {
            return Err(Error::InvalidRetention);
        }
        self.desired_retention = desired_retention;
        self.resort();
        self.reload_all_tasks_timings_at(now);
        Ok(())
    }

    /// [`Facade::set_desired_retention_at`] for the current instant, read from
    /// the system clock.
    pub fn set_desired_retention(&mut self, desired_retention: u64) -> (done: Result<(), Error>)
        requires
            old(self).wf(),
        ensures
            final(self).wf(),
            valid_retention(desired_retention) <==> done is Ok,
            done matches Err(e) ==> e is InvalidRetention,
            done is Err ==> {
                &&& final(self).same_settings(old(self))
                &&& final(self).pool() == old(self).pool()
                &&& final(self).recall() == old(self).recall()
            },
            done is Ok ==> {
                &&& final(self).retention() == desired_retention
                &&& final(self).name() == old(self).name()
                &&& final(self).shared_state() == old(self).shared_state()
                &&& final(self).tasks() == old(self).tasks()
                &&& final(self).total() == old(self).total()
                &&& exists|now: i128| #[trigger] final(self).settled_at(now)
            },
    {
        let now = current_instant();
        self.set_desired_retention_at(desired_retention, now)
    }

    /// `tasks` are all tasks of the facade: the waiting ones in their order, then
    /// those to recall.
    pub open spec fn lists(&self, tasks: Vec<&T>) -> bool {
        &&& tasks@.len() == self.total()
        &&& forall|i: int|
            0 <= i < self.pool().len() ==> *(#[trigger] tasks@[i]) == self.pool()[i].task
        &&& forall|i: int|
            0 <= i < self.recall().len() ==> *(#[trigger] tasks@[self.pool().len() + i])
                == self.recall()[i].task
    }

    /// All tasks with their identifiers: the waiting ones in their order, then
    /// those to recall.
    pub fn iter(&self) -> (entries: Vec<(&T, TaskId)>)
        ensures
            entries@.len() == self.pool().len() + self.recall().len(),
            forall|i: int|
                0 <= i < self.pool().len() ==> *(#[trigger] entries@[i]).0 == self.pool()[i].task
                    && entries@[i].1 == self.pool()[i].id,
            forall|i: int|
                0 <= i < self.recall().len() ==> *(#[trigger] entries@[self.pool().len()
                    + i]).0 == self.recall()[i].task && entries@[self.pool().len() + i].1
                    == self.recall()[i].id,
    {
        let mut entries: Vec<(&T, TaskId)> = Vec::new();
        let mut i: usize = 0;
        while i < self.tasks_pool.len()
            invariant
                i <= self.pool().len(),
                entries@.len() == i,
                forall|j: int|
                    0 <= j < i ==> *(#[trigger] entries@[j]).0 == self.pool()[j].task
                        && entries@[j].1 == self.pool()[j].id,
            decreases self.pool().len() - i,
        {
            entries.push((&self.tasks_pool[i].task, self.tasks_pool[i].id));
            i += 1;
        }
        let mut k: usize = 0;
        while k < self.tasks_to_recall.len()
            invariant
                k <= self.recall().len(),
                entries@.len() == self.pool().len() + k,
                forall|j: int|
                    0 <= j < self.pool().len() ==> *(#[trigger] entries@[j]).0
                        == self.pool()[j].task && entries@[j].1 == self.pool()[j].id,
                forall|j: int|
                    0 <= j < k ==> *(#[trigger] entries@[self.pool().len() + j]).0
                        == self.recall()[j].task && entries@[self.pool().len() + j].1
                        == self.recall()[j].id,
            decreases self.recall().len() - k,
        {
            entries.push((&self.tasks_to_recall[k].task, self.tasks_to_recall[k].id));
            k += 1;
        }
        entries
    }

    /// Whether the tasks of `self` were built anew from the templates of the
    /// tasks of `source`, the waiting ones first: the task under `ids[i]` from
    /// the template of the `i`-th task of `source`.
    pub open spec fn rebuilt_from<F: Task>(&self, source: &Facade<F>, ids: Seq<TaskId>) -> bool {
        let all = source.pool() + source.recall();
        &&& ids.len() == all.len()
        &&& ids.no_duplicates()
        &&& ids.to_set() == self.tasks().dom()
        &&& forall|i: int|
            0 <= i < ids.len() ==> self.tasks()[#[trigger] ids[i]].made_from(
                all[i].task.template(),
            )
    }

    /// A facade for another kind of task, with a task built from the template of
    /// each task of `self`.
    ///
    /// All history is lost: the new tasks wait in the pool under new
    /// identifiers, none of which `self` uses, and the shared state starts from
    /// its default. Name and desired retention carry over.
    pub fn migrate<N: Task>(&self) -> (migrated: Facade<N>)
        requires
            self.wf(),
        ensures
            migrated.wf(),
            migrated.name() == self.name(),
            migrated.retention() == self.retention(),
            migrated.shared_state() == N::SharedState::initial(),
            migrated.recall().len() == 0,
            migrated.pool().len() == self.total(),
            migrated.total() == self.total(),
            migrated.tasks().dom().disjoint(self.tasks().dom()),
            exists|ids: Seq<TaskId>| #[trigger] migrated.rebuilt_from(self, ids),
    {
        let mut migrated: Facade<N> = Facade {
            name: self.name.clone(),
            tasks_pool: Vec::new(),
            tasks_to_recall: Vec::new(),
            desired_retention: self.desired_retention,
            state: N::SharedState::initial_state(),
        };
        let ghost all = self.pool() + self.recall();
        let ghost mut ids: Seq<TaskId> = Seq::empty();
        proof {
            assert(migrated.tasks() =~= Map::<TaskId, N>::empty());
            assert(ids.to_set() =~= migrated.tasks().dom());
        }
        let waiting = self.tasks_pool.len();
        let total = self.tasks_total();
        let mut i: usize = 0;
        while i < total
            invariant
                self.wf(),
                all == self.pool() + self.recall(),
                waiting == self.pool().len(),
                total == all.len(),
                i <= total,
                migrated.wf(),
                migrated.name() == self.name(),
                migrated.retention() == self.retention(),
                migrated.shared_state() == N::SharedState::initial(),
                migrated.recall().len() == 0,
                migrated.pool().len() == i,
                migrated.tasks().dom().disjoint(self.tasks().dom()),
                ids.len() == i,
                ids.no_duplicates(),
                ids.to_set() == migrated.tasks().dom(),
                forall|j: int|
                    0 <= j < i ==> migrated.tasks()[#[trigger] ids[j]].made_from(
                        all[j].task.template(),
                    ),
            decreases total - i,
        {
            let source = if i < waiting {
                &self.tasks_pool[i]
            } else {
                &self.tasks_to_recall[i - waiting]
            };
            assert(*source == all[i as int]);
            let task = N::new(source.task.get_blocks());
            let id = migrated.mint_apart(self, random_id());
            let ghost before = migrated;
            let ghost known = ids;
            migrated.place(task, id);
            proof {
                ids = known.push(id);
                assert(!known.contains(id)) by {
                    if known.contains(id) {
                        assert(known.to_set().contains(id));
                    }
                }
                assert(ids.to_set() =~= migrated.tasks().dom()) by {
                    assert forall|x: TaskId| ids.to_set().contains(x) implies migrated.tasks().dom()
                        .contains(x) by {
                        let j = choose|j: int| 0 <= j < ids.len() && ids[j] == x;
                        if j < known.len() {
                            assert(known[j] == x);
                            assert(known.to_set().contains(x));
                        }
                    }
                    assert forall|x: TaskId| migrated.tasks().dom().contains(x) implies ids.to_set()
                        .contains(x) by {
                        if x == id {
                            assert(ids[known.len() as int] == x);
                        } else {
                            assert(known.to_set().contains(x));
                            let j = choose|j: int| 0 <= j < known.len() && known[j] == x;
                            assert(ids[j] == x);
                        }
                    }
                }
                assert forall|j: int| 0 <= j < i + 1 implies migrated.tasks()[#[trigger] ids[j]]
                    .made_from(all[j].task.template()) by {
                    if j < i {
                        assert(ids[j] == known[j]);
                        assert(known.to_set().contains(known[j]));
                        assert(before.tasks()[known[j]].made_from(all[j].task.template()));
                    }
                }
            }
            i += 1;
        }
        proof {
            assert(migrated.rebuilt_from(self, ids));
        }
        migrated
    }
}

impl<T: Task> Facade<T> where T::SharedState: SharedStateExt<T> {
    /// Fits the shared state anew to the history of all tasks, the waiting ones
    /// first. The tasks and their partition stay; the pool is brought into the
    /// order that the new shared state gives. When the fit fails nothing changes.
    pub fn optimize(&mut self) -> (outcome: Result<
        (),
        <T::SharedState as SharedStateExt<T>>::Failure,
    >)
        requires
            old(self).wf(),
        ensures
            final(self).wf(),
            final(self).name() == old(self).name(),
            final(self).retention() == old(self).retention(),
            final(self).tasks() == old(self).tasks(),
            final(self).recall() == old(self).recall(),
            final(self).pool_ids() == old(self).pool_ids(),
            final(self).total() == old(self).total(),
            outcome is Err ==> {
                &&& final(self).shared_state() == old(self).shared_state()
                &&& final(self).pool() == old(self).pool()
            },
            exists|tasks: Vec<&T>|
                {
                    &&& old(self).lists(tasks)
                    &&& #[trigger] final(self).shared_state().fitted(
                        &old(self).shared_state(),
                        tasks,
                        outcome is Ok,
                    )
                },
    {
        let mut tasks: Vec<&T> = Vec::new();
        let mut i: usize = 0;
        while i < self.tasks_pool.len()
            invariant
                i <= self.pool().len(),
                tasks@.len() == i,
                forall|j: int| 0 <= j < i ==> *(#[trigger] tasks@[j]) == self.pool()[j].task,
            decreases self.pool().len() - i,
        {
            tasks.push(&self.tasks_pool[i].task);
            i += 1;
        }
        let mut k: usize = 0;
        while k < self.tasks_to_recall.len()
            invariant
                k <= self.recall().len(),
                tasks@.len() == self.pool().len() + k,
                forall|j: int|
                    0 <= j < self.pool().len() ==> *(#[trigger] tasks@[j]) == self.pool()[j].task,
                forall|j: int|
                    0 <= j < k ==> *(#[trigger] tasks@[self.pool().len() + j])
                        == self.recall()[j].task,
            decreases self.recall().len() - k,
        {
            tasks.push(&self.tasks_to_recall[k].task);
            k += 1;
        }
        let ghost listed = tasks;
        let ghost before = *self;
        proof {
            assert(before.lists(listed));
        }
        let outcome = self.state.optimize(tasks);
        if outcome.is_ok() {
            self.resort();
        }
        proof {
            assert(self.shared_state().fitted(&before.shared_state(), listed, outcome is Ok));
        }
        outcome
    }
}

} // verus!
