//! A task under its identifier, and the model of a sequence of such entries.
//!
//! A sequence whose identifiers are pairwise distinct stands for a finite map
//! from identifier to task. The lemmas here say what the sequence operations
//! that a facade uses do to that map.

use crate::random::random_id;
use crate::retention::valid_retention;
use crate::task::{Task, TaskId};
use vstd::prelude::*;

verus! {

/// A task together with the identifier under which a facade holds it.
pub struct TaskWrapper<T> {
    pub task: T,
    pub id: TaskId,
}

impl<T: Task> TaskWrapper<T> {
    /// The instant of the next repetition of the wrapped task.
    pub open spec fn due(&self, state: &T::SharedState, retention: u64) -> i128 {
        self.task.due(state, retention)
    }

    /// Wraps a task under a randomly drawn identifier. Whether that identifier
    /// is free in a given facade is for the facade to settle, see
    /// [`crate::Facade::insert_entry`].
    pub fn new(value: T) -> (wrapped: Self)
        ensures
            wrapped.task == value,
    {
        Self { task: value, id: random_id() }
    }

    /// Computes [`TaskWrapper::due`].
    pub fn next_repetition(&self, state: &T::SharedState, retention: u64) -> (at: i128)
        requires
            valid_retention(retention),
        ensures
            at == self.due(state, retention),
    {
        self.task.next_repetition(state, retention)
    }

    /// Whether two entries have the same next repetition. Entries are compared
    /// by that instant alone, never by identifier or content.
    pub fn same_due(&self, other: &Self, state: &T::SharedState, retention: u64) -> (same: bool)
        requires
            valid_retention(retention),
        ensures
            same == (self.due(state, retention) == other.due(state, retention)),
    {
        self.next_repetition(state, retention) == other.next_repetition(state, retention)
    }

    /// Whether the next repetition of `self` is strictly earlier than that of
    /// `other`.
    pub fn due_before(&self, other: &Self, state: &T::SharedState, retention: u64) -> (before:
        bool)
        requires
            valid_retention(retention),
        ensures
            before == (self.due(state, retention) < other.due(state, retention)),
    {
        self.next_repetition(state, retention) < other.next_repetition(state, retention)
    }
}

/// Whether some entry of `s` has the identifier `id`.
pub open spec fn has_id<T>(s: Seq<TaskWrapper<T>>, id: TaskId) -> bool {
    exists|i: int| 0 <= i < s.len() && (#[trigger] s[i]).id == id
}

/// The position of an entry with the identifier `id`.
pub open spec fn index_of_id<T>(s: Seq<TaskWrapper<T>>, id: TaskId) -> int {
    choose|i: int| 0 <= i < s.len() && (#[trigger] s[i]).id == id
}

/// No two entries of `s` share an identifier.
pub open spec fn distinct_ids<T>(s: Seq<TaskWrapper<T>>) -> bool {
    forall|i: int, j: int|
        0 <= i < s.len() && 0 <= j < s.len() && i != j ==> (#[trigger] s[i]).id != (
        #[trigger] s[j]).id
}

/// `s` without its first entry under the identifier `id`, and `s` itself if
/// there is no such entry.
pub open spec fn without_id<T>(s: Seq<TaskWrapper<T>>, id: TaskId) -> Seq<TaskWrapper<T>> {
    if has_id(s, id) {
        s.remove(first_index_of_id(s, id))
    } else {
        s
    }
}

/// The position of the first entry with the identifier `id`.
pub open spec fn first_index_of_id<T>(s: Seq<TaskWrapper<T>>, id: TaskId) -> int {
    choose|i: int|
        0 <= i < s.len() && (#[trigger] s[i]).id == id && forall|j: int|
            0 <= j < i ==> (#[trigger] s[j]).id != id
}

/// Two entries of `s` have the identifier `id`.
pub open spec fn repeats_id<T>(s: Seq<TaskWrapper<T>>, id: TaskId) -> bool {
    exists|i: int, j: int|
        0 <= i < j < s.len() && (#[trigger] s[i]).id == id && (#[trigger] s[j]).id == id
}

/// No identifier occurs both in `a` and in `b`.
pub open spec fn disjoint_ids<T>(a: Seq<TaskWrapper<T>>, b: Seq<TaskWrapper<T>>) -> bool {
    forall|i: int, j: int|
        0 <= i < a.len() && 0 <= j < b.len() ==> (#[trigger] a[i]).id != (#[trigger] b[j]).id
}

/// The identifiers that occur in `s`.
pub open spec fn id_set<T>(s: Seq<TaskWrapper<T>>) -> Set<TaskId> {
    Set::new(|id: TaskId| has_id(s, id))
}

/// The tasks of `s` by identifier.
pub open spec fn task_map<T>(s: Seq<TaskWrapper<T>>) -> Map<TaskId, T> {
    Map::new(|id: TaskId| has_id(s, id), |id: TaskId| s[index_of_id(s, id)].task)
}

/// The entries of `s` stand in ascending order of their next repetition.
pub open spec fn sorted_by_due<T: Task>(
    s: Seq<TaskWrapper<T>>,
    state: &T::SharedState,
    retention: u64,
) -> bool {
    forall|i: int, j: int|
        0 <= i < j < s.len() ==> (#[trigger] s[i]).due(state, retention) <= (#[trigger] s[j]).due(
            state,
            retention,
        )
}

/// With distinct identifiers, the map gives back each entry's own task.
pub proof fn lemma_entry<T>(s: Seq<TaskWrapper<T>>, i: int)
    requires
        distinct_ids(s),
        0 <= i < s.len(),
    ensures
        has_id(s, s[i].id),
        index_of_id(s, s[i].id) == i,
        task_map(s).dom().contains(s[i].id),
        task_map(s)[s[i].id] == s[i].task,
{
    let id = s[i].id;
    let k = index_of_id(s, id);
    assert(0 <= k < s.len() && s[k].id == id);
}

/// A map that agrees with every entry of `s` and holds no other identifier is
/// the map of `s`.
pub proof fn lemma_task_map_is<T>(s: Seq<TaskWrapper<T>>, m: Map<TaskId, T>)
    requires
        forall|i: int|
            0 <= i < s.len() ==> m.dom().contains((#[trigger] s[i]).id) && m[s[i].id] == s[i].task,
        forall|id: TaskId| m.dom().contains(id) ==> has_id(s, id),
    ensures
        task_map(s) == m,
        id_set(s) == m.dom(),
{
    assert forall|id: TaskId| task_map(s).dom().contains(id) implies m.dom().contains(id)
        && task_map(s)[id] == m[id] by {
        let k = index_of_id(s, id);
        assert(0 <= k < s.len() && s[k].id == id);
    }
    assert(task_map(s).dom() =~= m.dom());
    assert(task_map(s) =~= m);
    assert(id_set(s) =~= m.dom());
}

/// The identifiers of `s` are the domain of its map.
pub proof fn lemma_id_set_is_dom<T>(s: Seq<TaskWrapper<T>>)
    ensures
        id_set(s) == task_map(s).dom(),
{
    assert(id_set(s) =~= task_map(s).dom());
}

/// A sequence with distinct identifiers holds as many identifiers as entries.
pub proof fn lemma_id_count<T>(s: Seq<TaskWrapper<T>>)
    requires
        distinct_ids(s),
    ensures
        id_set(s).finite(),
        id_set(s).len() == s.len(),
    decreases s.len(),
{
    if s.len() == 0 {
        assert(id_set(s) =~= Set::<TaskId>::empty());
    } else {
        let head = s.drop_last();
        let last = s.last();
        assert forall|i: int, j: int|
            0 <= i < head.len() && 0 <= j < head.len() && i != j implies (#[trigger] head[i]).id
            != (#[trigger] head[j]).id by {
            assert(head[i] == s[i] && head[j] == s[j]);
        }
        lemma_id_count(head);
        assert(!has_id(head, last.id)) by {
            if has_id(head, last.id) {
                let k = index_of_id(head, last.id);
                assert(head[k] == s[k]);
                assert(s[s.len() - 1].id == last.id);
            }
        }
        assert(id_set(s) =~= id_set(head).insert(last.id)) by {
            assert forall|id: TaskId| id_set(s).contains(id) implies id_set(head).insert(
                last.id,
            ).contains(id) by {
                let k = index_of_id(s, id);
                if k < s.len() - 1 {
                    assert(head[k].id == id);
                }
            }
            assert forall|id: TaskId| id_set(head).insert(last.id).contains(id) implies id_set(
                s,
            ).contains(id) by {
                if id == last.id {
                    assert(s[s.len() - 1].id == id);
                } else {
                    let k = index_of_id(head, id);
                    assert(s[k].id == id);
                }
            }
        }
    }
}

/// Inserting an entry under a new identifier adds it to the map.
pub proof fn lemma_insert<T>(s: Seq<TaskWrapper<T>>, k: int, e: TaskWrapper<T>)
    requires
        distinct_ids(s),
        !has_id(s, e.id),
        0 <= k <= s.len(),
    ensures
        distinct_ids(s.insert(k, e)),
        task_map(s.insert(k, e)) == task_map(s).insert(e.id, e.task),
        id_set(s.insert(k, e)) == id_set(s).insert(e.id),
{
    let r = s.insert(k, e);
    let m = task_map(s).insert(e.id, e.task);
    assert forall|i: int| 0 <= i < r.len() implies (i == k && r[i] == e) || (0 <= i < k && r[i]
        == s[i]) || (k < i && r[i] == s[i - 1]) by {}
    assert forall|i: int, j: int|
        0 <= i < r.len() && 0 <= j < r.len() && i != j implies (#[trigger] r[i]).id != (
        #[trigger] r[j]).id by {
        let si = if i < k { i } else { i - 1 };
        let sj = if j < k { j } else { j - 1 };
        if i != k && j != k {
            assert(r[i] == s[si] && r[j] == s[sj]);
        } else if i == k {
            assert(r[j] == s[sj]);
        } else {
            assert(r[i] == s[si]);
        }
    }
    assert forall|i: int| 0 <= i < r.len() implies m.dom().contains((#[trigger] r[i]).id)
        && m[r[i].id] == r[i].task by {
        if i != k {
            let si = if i < k { i } else { i - 1 };
            assert(r[i] == s[si]);
            lemma_entry(s, si);
        }
    }
    assert forall|id: TaskId| m.dom().contains(id) implies has_id(r, id) by {
        if id == e.id {
            assert(r[k].id == id);
        } else {
            let j = index_of_id(s, id);
            let rj = if j < k { j } else { j + 1 };
            assert(r[rj] == s[j]);
        }
    }
    lemma_task_map_is(r, m);
    lemma_id_set_is_dom(s);
}

/// Appending an entry under a new identifier adds it to the map.
pub proof fn lemma_push<T>(s: Seq<TaskWrapper<T>>, e: TaskWrapper<T>)
    requires
        distinct_ids(s),
        !has_id(s, e.id),
    ensures
        distinct_ids(s.push(e)),
        task_map(s.push(e)) == task_map(s).insert(e.id, e.task),
        id_set(s.push(e)) == id_set(s).insert(e.id),
{
    assert(s.push(e) =~= s.insert(s.len() as int, e));
    lemma_insert(s, s.len() as int, e);
}

/// Removing the entry at `k` removes its identifier from the map.
pub proof fn lemma_remove<T>(s: Seq<TaskWrapper<T>>, k: int)
    requires
        distinct_ids(s),
        0 <= k < s.len(),
    ensures
        distinct_ids(s.remove(k)),
        !has_id(s.remove(k), s[k].id),
        task_map(s.remove(k)) == task_map(s).remove(s[k].id),
        id_set(s.remove(k)) == id_set(s).remove(s[k].id),
{
    let r = s.remove(k);
    let m = task_map(s).remove(s[k].id);
    assert forall|i: int| 0 <= i < r.len() implies #[trigger] r[i] == s[if i < k {
        i
    } else {
        i + 1
    }] by {}
    assert forall|i: int, j: int|
        0 <= i < r.len() && 0 <= j < r.len() && i != j implies (#[trigger] r[i]).id != (
        #[trigger] r[j]).id by {
        let si = if i < k { i } else { i + 1 };
        let sj = if j < k { j } else { j + 1 };
        assert(r[i] == s[si] && r[j] == s[sj]);
    }
    assert forall|i: int| 0 <= i < r.len() implies m.dom().contains((#[trigger] r[i]).id)
        && m[r[i].id] == r[i].task by {
        let si = if i < k { i } else { i + 1 };
        assert(r[i] == s[si]);
        lemma_entry(s, si);
        assert(s[si].id != s[k].id);
    }
    assert forall|id: TaskId| m.dom().contains(id) implies has_id(r, id) by {
        let j = index_of_id(s, id);
        assert(j != k);
        let rj = if j < k { j } else { j - 1 };
        assert(r[rj] == s[j]);
    }
    lemma_task_map_is(r, m);
    lemma_id_set_is_dom(s);
    if has_id(r, s[k].id) {
        let j = index_of_id(r, s[k].id);
        let sj = if j < k { j } else { j + 1 };
        assert(r[j] == s[sj]);
    }
}

/// Taking the entry at `k` out by moving the last entry into its place removes
/// its identifier from the map.
pub proof fn lemma_swap_remove<T>(s: Seq<TaskWrapper<T>>, k: int)
    requires
        distinct_ids(s),
        0 <= k < s.len(),
    ensures
        distinct_ids(s.update(k, s.last()).drop_last()),
        !has_id(s.update(k, s.last()).drop_last(), s[k].id),
        task_map(s.update(k, s.last()).drop_last()) == task_map(s).remove(s[k].id),
        id_set(s.update(k, s.last()).drop_last()) == id_set(s).remove(s[k].id),
{
    let r = s.update(k, s.last()).drop_last();
    let m = task_map(s).remove(s[k].id);
    let n = s.len() - 1;
    assert forall|i: int| 0 <= i < r.len() implies #[trigger] r[i] == s[if i == k {
        n
    } else {
        i
    }] by {}
    assert forall|i: int, j: int|
        0 <= i < r.len() && 0 <= j < r.len() && i != j implies (#[trigger] r[i]).id != (
        #[trigger] r[j]).id by {
        let si = if i == k { n } else { i };
        let sj = if j == k { n } else { j };
        assert(r[i] == s[si] && r[j] == s[sj]);
    }
    assert forall|i: int| 0 <= i < r.len() implies m.dom().contains((#[trigger] r[i]).id)
        && m[r[i].id] == r[i].task by {
        let si = if i == k { n } else { i };
        assert(r[i] == s[si]);
        lemma_entry(s, si);
        assert(s[si].id != s[k].id);
    }
    assert forall|id: TaskId| m.dom().contains(id) implies has_id(r, id) by {
        let j = index_of_id(s, id);
        assert(j != k);
        let rj = if j == n { k } else { j };
        assert(r[rj] == s[j]);
    }
    lemma_task_map_is(r, m);
    lemma_id_set_is_dom(s);
    if has_id(r, s[k].id) {
        let j = index_of_id(r, s[k].id);
        let sj = if j == k { n } else { j };
        assert(r[j] == s[sj]);
    }
}

/// The map of two sequences put end to end, where no identifier is in both.
pub proof fn lemma_concat<T>(a: Seq<TaskWrapper<T>>, b: Seq<TaskWrapper<T>>)
    requires
        distinct_ids(a),
        distinct_ids(b),
        disjoint_ids(a, b),
    ensures
        distinct_ids(a + b),
        task_map(a + b) == task_map(a).union_prefer_right(task_map(b)),
        id_set(a + b) == id_set(a).union(id_set(b)),
{
    let r = a + b;
    let m = task_map(a).union_prefer_right(task_map(b));
    assert forall|i: int| 0 <= i < r.len() implies #[trigger] r[i] == (if i < a.len() {
        a[i]
    } else {
        b[i - a.len()]
    }) by {}
    assert forall|i: int, j: int|
        0 <= i < r.len() && 0 <= j < r.len() && i != j implies (#[trigger] r[i]).id != (
        #[trigger] r[j]).id by {
        if i < a.len() {
            assert(r[i] == a[i]);
        } else {
            assert(r[i] == b[i - a.len()]);
        }
        if j < a.len() {
            assert(r[j] == a[j]);
        } else {
            assert(r[j] == b[j - a.len()]);
        }
    }
    assert forall|i: int| 0 <= i < r.len() implies m.dom().contains((#[trigger] r[i]).id)
        && m[r[i].id] == r[i].task by {
        if i < a.len() {
            assert(r[i] == a[i]);
            lemma_entry(a, i);
            if has_id(b, a[i].id) {
                let j = index_of_id(b, a[i].id);
                assert(a[i].id != b[j].id);
            }
        } else {
            assert(r[i] == b[i - a.len()]);
            lemma_entry(b, i - a.len());
        }
    }
    assert forall|id: TaskId| m.dom().contains(id) implies has_id(r, id) by {
        if has_id(b, id) {
            let j = index_of_id(b, id);
            assert(r[a.len() + j] == b[j]);
        } else {
            let j = index_of_id(a, id);
            assert(r[j] == a[j]);
        }
    }
    lemma_task_map_is(r, m);
    lemma_id_set_is_dom(a);
    lemma_id_set_is_dom(b);
    assert(id_set(r) =~= id_set(a).union(id_set(b)));
}

/// Cutting a sequence in two gives parts that share no identifier.
pub proof fn lemma_split<T>(s: Seq<TaskWrapper<T>>, k: int)
    requires
        distinct_ids(s),
        0 <= k <= s.len(),
    ensures
        distinct_ids(s.subrange(0, k)),
        distinct_ids(s.subrange(k, s.len() as int)),
        disjoint_ids(s.subrange(0, k), s.subrange(k, s.len() as int)),
        s.subrange(0, k) + s.subrange(k, s.len() as int) == s,
{
    let a = s.subrange(0, k);
    let b = s.subrange(k, s.len() as int);
    assert forall|i: int, j: int|
        0 <= i < a.len() && 0 <= j < a.len() && i != j implies (#[trigger] a[i]).id != (
        #[trigger] a[j]).id by {
        assert(a[i] == s[i] && a[j] == s[j]);
    }
    assert forall|i: int, j: int|
        0 <= i < b.len() && 0 <= j < b.len() && i != j implies (#[trigger] b[i]).id != (
        #[trigger] b[j]).id by {
        assert(b[i] == s[k + i] && b[j] == s[k + j]);
    }
    assert forall|i: int, j: int| 0 <= i < a.len() && 0 <= j < b.len() implies (#[trigger] a[i]).id
        != (#[trigger] b[j]).id by {
        assert(a[i] == s[i] && b[j] == s[k + j]);
    }
    assert(a + b =~= s);
}

/// Sequences that share no identifier have disjoint sets of identifiers.
pub proof fn lemma_disjoint<T>(a: Seq<TaskWrapper<T>>, b: Seq<TaskWrapper<T>>)
    requires
        disjoint_ids(a, b),
    ensures
        id_set(a).disjoint(id_set(b)),
        task_map(a).dom().disjoint(task_map(b).dom()),
        forall|id: TaskId| !(has_id(a, id) && has_id(b, id)),
{
    assert forall|id: TaskId| !(has_id(a, id) && has_id(b, id)) by {
        if has_id(a, id) && has_id(b, id) {
            let i = index_of_id(a, id);
            let j = index_of_id(b, id);
            assert(a[i].id != b[j].id);
        }
    }
}

/// Taking entries out of a sorted sequence leaves the rest sorted: a part of it
/// is sorted, and so is the sequence without one entry.
pub proof fn lemma_sorted_parts<T: Task>(
    s: Seq<TaskWrapper<T>>,
    state: &T::SharedState,
    retention: u64,
    k: int,
)
    requires
        sorted_by_due(s, state, retention),
        0 <= k <= s.len(),
    ensures
        sorted_by_due(s.subrange(0, k), state, retention),
        sorted_by_due(s.subrange(k, s.len() as int), state, retention),
        k < s.len() ==> sorted_by_due(s.remove(k), state, retention),
{
    let a = s.subrange(0, k);
    let b = s.subrange(k, s.len() as int);
    assert forall|i: int, j: int| 0 <= i < j < a.len() implies (#[trigger] a[i]).due(
        state,
        retention,
    ) <= (#[trigger] a[j]).due(state, retention) by {
        assert(a[i] == s[i] && a[j] == s[j]);
    }
    assert forall|i: int, j: int| 0 <= i < j < b.len() implies (#[trigger] b[i]).due(
        state,
        retention,
    ) <= (#[trigger] b[j]).due(state, retention) by {
        assert(b[i] == s[k + i] && b[j] == s[k + j]);
    }
    if k < s.len() {
        let r = s.remove(k);
        assert forall|i: int, j: int| 0 <= i < j < r.len() implies (#[trigger] r[i]).due(
            state,
            retention,
        ) <= (#[trigger] r[j]).due(state, retention) by {
            let si = if i < k { i } else { i + 1 };
            let sj = if j < k { j } else { j + 1 };
            assert(r[i] == s[si] && r[j] == s[sj]);
        }
    }
}

} // verus!
