//! Vectors of entries: finding an identifier, and keeping the ascending order of
//! next repetitions.

use crate::retention::valid_retention;
use crate::task::{Task, TaskId};
use crate::wrapper::{
    disjoint_ids, distinct_ids, has_id, id_set, index_of_id, lemma_entry, lemma_insert,
    lemma_push, lemma_remove, repeats_id, sorted_by_due, task_map, TaskWrapper,
};
use std::collections::HashSet;
use vstd::prelude::*;

verus! {

/// `k` entries of `s` are due no later than `key`, and they are the first `k`.
pub open spec fn cuts_at<T: Task>(
    s: Seq<TaskWrapper<T>>,
    state: &T::SharedState,
    retention: u64,
    key: int,
    k: int,
) -> bool {
    &&& 0 <= k <= s.len()
    &&& forall|i: int| 0 <= i < k ==> (#[trigger] s[i]).due(state, retention) <= key
    &&& forall|i: int| k <= i < s.len() ==> (#[trigger] s[i]).due(state, retention) > key
}

/// The number of entries of a sorted `s` that are due no later than `key`, which
/// is also the position of the first entry due after `key`.
pub open spec fn rank<T: Task>(
    s: Seq<TaskWrapper<T>>,
    state: &T::SharedState,
    retention: u64,
    key: int,
) -> int {
    choose|k: int| cuts_at(s, state, retention, key, k)
}

/// A sequence is cut at one place only.
pub proof fn lemma_rank_is<T: Task>(
    s: Seq<TaskWrapper<T>>,
    state: &T::SharedState,
    retention: u64,
    key: int,
    k: int,
)
    requires
        cuts_at(s, state, retention, key, k),
    ensures
        rank(s, state, retention, key) == k,
{
    let r = rank(s, state, retention, key);
    assert(cuts_at(s, state, retention, key, r));
    if r < k {
        assert(s[r].due(state, retention) <= key);
    } else if k < r {
        assert(s[k].due(state, retention) <= key);
    }
}

/// A sorted sequence is cut somewhere, whatever the key.
pub proof fn lemma_rank_in_range<T: Task>(
    s: Seq<TaskWrapper<T>>,
    state: &T::SharedState,
    retention: u64,
    key: int,
)
    requires
        sorted_by_due(s, state, retention),
    ensures
        cuts_at(s, state, retention, key, rank(s, state, retention, key)),
    decreases s.len(),
{
    if s.len() == 0 {
        assert(cuts_at(s, state, retention, key, 0));
    } else if s.last().due(state, retention) <= key {
        assert forall|i: int| 0 <= i < s.len() implies (#[trigger] s[i]).due(state, retention)
            <= key by {
            if i < s.len() - 1 {
                assert(s[i].due(state, retention) <= s[s.len() - 1].due(state, retention));
            }
        }
        assert(cuts_at(s, state, retention, key, s.len() as int));
    } else {
        let head = s.drop_last();
        assert forall|i: int, j: int| 0 <= i < j < head.len() implies (#[trigger] head[i]).due(
            state,
            retention,
        ) <= (#[trigger] head[j]).due(state, retention) by {
            assert(head[i] == s[i] && head[j] == s[j]);
        }
        lemma_rank_in_range(head, state, retention, key);
        let k = rank(head, state, retention, key);
        assert(cuts_at(s, state, retention, key, k)) by {
            assert forall|i: int| 0 <= i < k implies (#[trigger] s[i]).due(state, retention)
                <= key by {
                assert(head[i] == s[i]);
            }
            assert forall|i: int| k <= i < s.len() implies (#[trigger] s[i]).due(
                state,
                retention,
            ) > key by {
                if i < s.len() - 1 {
                    assert(head[i] == s[i]);
                }
            }
        }
    }
}

/// An entry put at the rank of its own next repetition keeps the order.
pub proof fn lemma_insert_sorted<T: Task>(
    s: Seq<TaskWrapper<T>>,
    state: &T::SharedState,
    retention: u64,
    e: TaskWrapper<T>,
    k: int,
)
    requires
        sorted_by_due(s, state, retention),
        cuts_at(s, state, retention, e.due(state, retention) as int, k),
    ensures
        sorted_by_due(s.insert(k, e), state, retention),
{
    let r = s.insert(k, e);
    assert forall|i: int, j: int| 0 <= i < j < r.len() implies (#[trigger] r[i]).due(
        state,
        retention,
    ) <= (#[trigger] r[j]).due(state, retention) by {
        let si = if i < k { i } else { i - 1 };
        let sj = if j < k { j } else { j - 1 };
        if i != k {
            assert(r[i] == s[si]);
        }
        if j != k {
            assert(r[j] == s[sj]);
        }
    }
}

/// The position of the first entry with identifier `id`, if there is one.
pub fn find_id<T>(v: &Vec<TaskWrapper<T>>, id: TaskId) -> (found: Option<usize>)
    ensures
        match found {
            Some(i) => {
                &&& i < v@.len()
                &&& v@[i as int].id == id
                &&& forall|j: int| 0 <= j < i ==> (#[trigger] v@[j]).id != id
            },
            None => !has_id(v@, id),
        },
{
    let mut i: usize = 0;
    while i < v.len()
        invariant
            i <= v@.len(),
            forall|j: int| 0 <= j < i ==> (#[trigger] v@[j]).id != id,
        decreases v@.len() - i,
    {
        if v[i].id == id {
            return Some(i);
        }
        i += 1;
    }
    None
}

/// Computes [`rank`] by bisection.
pub fn search_due<T: Task>(
    v: &Vec<TaskWrapper<T>>,
    key: i128,
    state: &T::SharedState,
    retention: u64,
) -> (k: usize)
    requires
        valid_retention(retention),
        sorted_by_due(v@, state, retention),
    ensures
        cuts_at(v@, state, retention, key as int, k as int),
        k as int == rank(v@, state, retention, key as int),
{
    let mut lo: usize = 0;
    let mut hi: usize = v.len();
    while lo < hi
        invariant
            valid_retention(retention),
            sorted_by_due(v@, state, retention),
            lo <= hi <= v@.len(),
            forall|i: int| 0 <= i < lo ==> (#[trigger] v@[i]).due(state, retention) <= key,
            forall|i: int| hi <= i < v@.len() ==> (#[trigger] v@[i]).due(state, retention) > key,
        decreases hi - lo,
    {
        let mid: usize = lo + (hi - lo) / 2;
        let at: i128 = v[mid].next_repetition(state, retention);
        if at <= key {
            assert forall|i: int| 0 <= i < mid + 1 implies (#[trigger] v@[i]).due(
                state,
                retention,
            ) <= key by {
                if i < mid {
                    assert(v@[i].due(state, retention) <= v@[mid as int].due(state, retention));
                }
            }
            lo = mid + 1;
        } else {
            assert forall|i: int| mid <= i < v@.len() implies (#[trigger] v@[i]).due(
                state,
                retention,
            ) > key by {
                if mid < i {
                    assert(v@[mid as int].due(state, retention) <= v@[i].due(state, retention));
                }
            }
            hi = mid;
        }
    }
    proof {
        lemma_rank_is(v@, state, retention, key as int, lo as int);
    }
    lo
}

/// Puts `entry` into a sorted vector, behind the entries that are due no later
/// than it.
pub fn insert_by_due<T: Task>(
    v: &mut Vec<TaskWrapper<T>>,
    entry: TaskWrapper<T>,
    state: &T::SharedState,
    retention: u64,
)
    requires
        valid_retention(retention),
        sorted_by_due(old(v)@, state, retention),
    ensures
        final(v)@ == old(v)@.insert(
            rank(old(v)@, state, retention, entry.due(state, retention) as int),
            entry,
        ),
        0 <= rank(old(v)@, state, retention, entry.due(state, retention) as int) <= old(v)@.len(),
        sorted_by_due(final(v)@, state, retention),
{
    let at: i128 = entry.next_repetition(state, retention);
    let k: usize = search_due(v, at, state, retention);
    proof {
        lemma_insert_sorted(v@, state, retention, entry, k as int);
    }
    v.insert(k, entry);
}

/// Brings a vector into ascending order of next repetitions. Which of two
/// entries with the same next repetition comes first is left open.
///
/// The entries are taken in their old order and each is put in its place among
/// those already taken, so a vector that is in order already costs one search
/// for each entry and moves nothing.
pub(crate) fn sort_by_due<T: Task>(
    v: &mut Vec<TaskWrapper<T>>,
    state: &T::SharedState,
    retention: u64,
)
    requires
        valid_retention(retention),
        distinct_ids(old(v)@),
    ensures
        sorted_by_due(final(v)@, state, retention),
        distinct_ids(final(v)@),
        task_map(final(v)@) == task_map(old(v)@),
        final(v)@.len() == old(v)@.len(),
{
    let mut rest: Vec<TaskWrapper<T>> = Vec::new();
    proof {
        assert(task_map(v@).union_prefer_right(task_map(rest@)) =~= task_map(v@));
    }
    while v.len() > 0
        invariant
            distinct_ids(v@),
            distinct_ids(rest@),
            disjoint_ids(v@, rest@),
            task_map(v@).union_prefer_right(task_map(rest@)) == task_map(old(v)@),
            v@.len() + rest@.len() == old(v)@.len(),
        decreases v@.len(),
    {
        let ghost before = v@;
        let ghost turned = rest@;
        let last = v.pop();
        let entry = last.unwrap();
        let ghost taken = entry;
        rest.push(entry);
        proof {
            assert(rest@ =~= turned.insert(turned.len() as int, taken));
            lemma_moved(before, turned, v@, rest@, turned.len() as int);
        }
    }
    proof {
        lemma_no_entries(v@);
        assert(task_map(v@).union_prefer_right(task_map(rest@)) =~= task_map(
            rest@,
        ).union_prefer_right(task_map(v@)));
    }
    while rest.len() > 0
        invariant
            valid_retention(retention),
            distinct_ids(rest@),
            distinct_ids(v@),
            disjoint_ids(rest@, v@),
            sorted_by_due(v@, state, retention),
            task_map(rest@).union_prefer_right(task_map(v@)) == task_map(old(v)@),
            rest@.len() + v@.len() == old(v)@.len(),
        decreases rest@.len(),
    {
        let ghost before = rest@;
        let ghost placed = v@;
        let last = rest.pop();
        let entry = last.unwrap();
        let ghost taken = entry;
        insert_by_due(v, entry, state, retention);
        proof {
            lemma_moved(
                before,
                placed,
                rest@,
                v@,
                rank(placed, state, retention, taken.due(state, retention) as int),
            );
        }
    }
    proof {
        lemma_no_entries(rest@);
        assert(task_map(rest@).union_prefer_right(task_map(v@)) =~= task_map(v@));
    }
}

/// An empty sequence has an empty map.
proof fn lemma_no_entries<T>(s: Seq<TaskWrapper<T>>)
    requires
        s.len() == 0,
    ensures
        task_map(s) == Map::<TaskId, T>::empty(),
{
    assert(task_map(s) =~= Map::<TaskId, T>::empty()) by {
        assert forall|id: TaskId| !has_id(s, id) by {}
    }
}

/// Moving the last entry of one sequence to any place in another that shares
/// no identifier with it changes neither the tasks that the two hold together
/// nor that they share no identifier.
proof fn lemma_moved<T>(
    from: Seq<TaskWrapper<T>>,
    to: Seq<TaskWrapper<T>>,
    from_after: Seq<TaskWrapper<T>>,
    to_after: Seq<TaskWrapper<T>>,
    k: int,
)
    requires
        from.len() > 0,
        distinct_ids(from),
        distinct_ids(to),
        disjoint_ids(from, to),
        0 <= k <= to.len(),
        from_after == from.subrange(0, from.len() - 1),
        to_after == to.insert(k, from.last()),
    ensures
        distinct_ids(from_after),
        distinct_ids(to_after),
        disjoint_ids(from_after, to_after),
        task_map(from_after).union_prefer_right(task_map(to_after)) == task_map(
            from,
        ).union_prefer_right(task_map(to)),
{
    let n = from.len() - 1;
    let taken = from.last();
    assert(from_after =~= from.remove(n));
    lemma_remove(from, n);
    lemma_entry(from, n);
    assert(!has_id(to, taken.id)) by {
        if has_id(to, taken.id) {
            let j = index_of_id(to, taken.id);
            assert(from[n].id != to[j].id);
        }
    }
    lemma_insert(to, k, taken);
    assert(task_map(from_after).union_prefer_right(task_map(to_after)) =~= task_map(
        from,
    ).union_prefer_right(task_map(to)));
    assert forall|i: int, j: int| 0 <= i < from_after.len() && 0 <= j < to_after.len() implies (
    #[trigger] from_after[i]).id != (#[trigger] to_after[j]).id by {
        assert(from_after[i] == from[i]);
        if j == k {
            assert(from[i].id != from[n].id);
        } else {
            let pj = if j < k { j } else { j - 1 };
            assert(to_after[j] == to[pj]);
        }
    }
}

/// Looks for an identifier that `v` repeats, or that is in `seen` already, and
/// adds the identifiers of `v` to `seen`. The first such identifier is returned.
pub(crate) fn find_repeat<T>(v: &Vec<TaskWrapper<T>>, seen: &mut HashSet<TaskId>) -> (repeat:
    Option<TaskId>)
    ensures
        match repeat {
            None => {
                &&& distinct_ids(v@)
                &&& forall|i: int| 0 <= i < v@.len() ==> !old(seen)@.contains((#[trigger] v@[i]).id)
                &&& final(seen)@ == old(seen)@.union(id_set(v@))
            },
            Some(id) => {
                &&& has_id(v@, id)
                &&& old(seen)@.contains(id) || repeats_id(v@, id)
            },
        },
{
    broadcast use vstd::std_specs::hash::group_hash_axioms;

    let mut i: usize = 0;
    while i < v.len()
        invariant
            i <= v@.len(),
            distinct_ids(v@.subrange(0, i as int)),
            forall|j: int| 0 <= j < i ==> !old(seen)@.contains((#[trigger] v@[j]).id),
            seen@ == old(seen)@.union(id_set(v@.subrange(0, i as int))),
        decreases v@.len() - i,
    {
        let id = v[i].id;
        let ghost done = v@.subrange(0, i as int);
        let ghost known = seen@;
        let fresh = seen.insert(id);
        if !fresh {
            proof {
                assert(known.contains(id));
                if !old(seen)@.contains(id) {
                    assert(has_id(done, id));
                    let j = index_of_id(done, id);
                    assert(done[j] == v@[j]);
                    assert(v@[j].id == id && v@[i as int].id == id);
                }
            }
            return Some(id);
        }
        proof {
            let next = v@.subrange(0, i + 1);
            assert(next =~= done.push(v@[i as int]));
            assert(!has_id(done, id));
            lemma_push(done, v@[i as int]);
            assert(seen@ =~= old(seen)@.union(id_set(next)));
        }
        i += 1;
    }
    proof {
        assert(v@.subrange(0, i as int) =~= v@);
    }
    None
}

} // verus!
