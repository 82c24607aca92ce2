//! Minting identifiers.
//!
//! An identifier starts as a random draw. Should the draw already be taken, the
//! identifiers after it are tried in turn, wrapping round at the top, until a
//! free one is found. Fewer identifiers are in use than exist, so the search
//! ends, and no identifier is ever handed out twice.

use crate::task::TaskId;
use vstd::prelude::*;

verus! {

/// The number of identifiers.
pub open spec fn id_space() -> int {
    0x1_0000_0000_0000_0000_0000_0000_0000_0000int
}

/// The identifier `k` steps after `seed`, wrapping round at the top.
pub open spec fn probe(seed: TaskId, k: int) -> TaskId {
    if seed as int + k < id_space() {
        (seed as int + k) as TaskId
    } else {
        (seed as int + k - id_space()) as TaskId
    }
}

/// The identifier `k` steps after `seed` is free, and none before it is.
pub open spec fn first_free_at(used: Set<TaskId>, seed: TaskId, k: int) -> bool {
    &&& 0 <= k < id_space()
    &&& !used.contains(probe(seed, k))
    &&& forall|j: int| 0 <= j < k ==> used.contains(#[trigger] probe(seed, j))
}

/// The first identifier at or after `seed` that is not in `used`.
pub open spec fn first_free(used: Set<TaskId>, seed: TaskId) -> TaskId {
    probe(seed, choose|k: int| first_free_at(used, seed, k))
}

/// The identifiers up to `k` steps after `seed`.
pub open spec fn probes(seed: TaskId, k: int) -> Set<TaskId> {
    Set::new(|id: TaskId| exists|j: int| 0 <= j < k && #[trigger] probe(seed, j) == id)
}

/// The first free identifier is found at one place only.
pub proof fn lemma_first_free_is(used: Set<TaskId>, seed: TaskId, k: int)
    requires
        first_free_at(used, seed, k),
    ensures
        first_free(used, seed) == probe(seed, k),
        !used.contains(first_free(used, seed)),
        !used.contains(seed) ==> first_free(used, seed) == seed,
{
    let c = choose|c: int| first_free_at(used, seed, c);
    assert(first_free_at(used, seed, c));
    if c < k {
        assert(used.contains(probe(seed, c)));
    } else if k < c {
        assert(used.contains(probe(seed, k)));
    }
    if !used.contains(seed) && k > 0 {
        assert(used.contains(probe(seed, 0)));
    }
}

/// `k` steps from a seed reach `k` different identifiers, as long as `k` does
/// not exceed the number of identifiers.
pub proof fn lemma_probes_count(seed: TaskId, k: int)
    requires
        0 <= k <= id_space(),
    ensures
        probes(seed, k).finite(),
        probes(seed, k).len() == k,
    decreases k,
{
    if k == 0 {
        assert(probes(seed, k) =~= Set::<TaskId>::empty());
    } else {
        lemma_probes_count(seed, k - 1);
        let last = probe(seed, k - 1);
        assert(!probes(seed, k - 1).contains(last)) by {
            if probes(seed, k - 1).contains(last) {
                let j = choose|j: int| 0 <= j < k - 1 && #[trigger] probe(seed, j) == last;
                assert(probe(seed, j) != probe(seed, k - 1));
            }
        }
        assert(probes(seed, k) =~= probes(seed, k - 1).insert(last)) by {
            assert forall|id: TaskId| probes(seed, k).contains(id) implies probes(
                seed,
                k - 1,
            ).insert(last).contains(id) by {
                let j = choose|j: int| 0 <= j < k && #[trigger] probe(seed, j) == id;
                if j < k - 1 {
                    assert(probe(seed, j) == id);
                }
            }
            assert forall|id: TaskId| probes(seed, k - 1).insert(last).contains(
                id,
            ) implies probes(seed, k).contains(id) by {
                if id == last {
                    assert(probe(seed, k - 1) == id);
                } else {
                    let j = choose|j: int| 0 <= j < k - 1 && #[trigger] probe(seed, j) == id;
                    assert(probe(seed, j) == id);
                }
            }
        }
    }
}

/// If the first `k` identifiers from a seed are all in use, at least `k`
/// identifiers are in use.
pub proof fn lemma_probes_bound(used: Set<TaskId>, seed: TaskId, k: int)
    requires
        used.finite(),
        0 <= k <= id_space(),
        forall|j: int| 0 <= j < k ==> used.contains(#[trigger] probe(seed, j)),
    ensures
        k <= used.len(),
{
    lemma_probes_count(seed, k);
    assert(probes(seed, k).subset_of(used));
    vstd::set_lib::lemma_len_subset(probes(seed, k), used);
}

/// The identifier one step after `id`, wrapping round at the top.
pub fn next_id(id: TaskId) -> (next: TaskId)
    ensures
        next == probe(id, 1),
        forall|seed: TaskId, k: int|
            0 <= k < id_space() - 1 && id == probe(seed, k) ==> next == #[trigger] probe(
                seed,
                k + 1,
            ),
{
    if id == u128::MAX {
        0
    } else {
        id + 1
    }
}

} // verus!
