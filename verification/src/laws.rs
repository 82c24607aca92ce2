//! Laws of a facade that relate several of its functions.

use crate::error::Error;
use crate::facade::Facade;
use crate::task::{Task, TaskId};
use crate::time::LOOKAHEAD;
use crate::wrapper::{has_id, index_of_id};
use vstd::prelude::*;

verus! {

/// The templates of the tasks of a facade.
pub open spec fn templates<T: Task>(facade: &Facade<T>) -> Set<s_text_input_f::BlocksWithAnswer> {
    Set::new(
        |template: s_text_input_f::BlocksWithAnswer|
            exists|id: TaskId|
                facade.tasks().dom().contains(id) && #[trigger] facade.tasks()[id].template()
                    == template,
    )
}

/// A facade counts each task once: the waiting tasks and the tasks to recall
/// share no identifier, and together they are all the tasks.
pub proof fn lemma_total_is_pool_and_recall<T: Task>(facade: Facade<T>)
    requires
        facade.wf(),
    ensures
        facade.tasks().dom().finite(),
        facade.pool_ids().disjoint(facade.recall_ids()),
        facade.tasks().dom() == facade.pool_ids().union(facade.recall_ids()),
        facade.tasks().dom().len() == facade.pool_ids().len() + facade.recall_ids().len(),
        facade.tasks().dom().len() == facade.pool().len() + facade.recall().len(),
{
    facade.lemma_ids();
}

/// While tasks exist and none stands to recall or is due within the lookahead, a
/// review fails with the span from `now` to the earliest next repetition of all
/// tasks, which is longer than the lookahead; and it changes nothing.
pub proof fn lemma_nothing_due_yet<T: Task>(
    before: Facade<T>,
    after: Facade<T>,
    now: i128,
    done: Result<(), Error>,
)
    requires
        before.wf(),
        before.completes(&after, now, done),
        before.total() > 0,
        before.batch(now).is_empty(),
    ensures
        done matches Err(Error::NoTaskToComplete { time_until_next_repetition }) && {
            &&& time_until_next_repetition > LOOKAHEAD
            &&& forall|id: TaskId|
                before.tasks().dom().contains(id) ==> time_until_next_repetition
                    <= #[trigger] before.due_of(id) - now
            &&& exists|id: TaskId|
                before.tasks().dom().contains(id) && time_until_next_repetition
                    == #[trigger] before.due_of(id) - now
        },
        after.pool() == before.pool(),
        after.recall() == before.recall(),
        after.shared_state() == before.shared_state(),
{
    before.lemma_ids();
    assert(before.recall_ids() =~= Set::<TaskId>::empty());
    assert(before.tasks().dom() =~= before.pool_ids());
    before.lemma_next_due();
    let first = before.pool()[0].id;
    assert(!before.due_ids(now, LOOKAHEAD).contains(first));
    assert(before.tasks().dom().contains(first));
}

/// Migration keeps the number of tasks and their templates, if the new kind of
/// task is one that keeps the template it is made from. It keeps no identifier.
pub proof fn lemma_migration_keeps_templates<F: Task, N: Task>(
    source: Facade<F>,
    migrated: Facade<N>,
    ids: Seq<TaskId>,
)
    requires
        source.wf(),
        migrated.wf(),
        migrated.rebuilt_from(&source, ids),
        forall|task: N, input: s_text_input_f::BlocksWithAnswer| #[trigger]
            task.made_from(input) ==> task.template() == input,
    ensures
        migrated.tasks().dom().len() == source.tasks().dom().len(),
        forall|i: int|
            0 <= i < ids.len() ==> migrated.tasks()[#[trigger] ids[i]].template() == (source.pool()
                + source.recall())[i].task.template(),
        templates(&migrated) == templates(&source),
{
    let all = source.pool() + source.recall();
    source.lemma_ids();
    source.lemma_lookup();
    migrated.lemma_ids();
    ids.unique_seq_to_set();
    assert forall|i: int| 0 <= i < ids.len() implies migrated.tasks()[#[trigger] ids[i]].template()
        == all[i].task.template() by {
        assert(migrated.tasks()[ids[i]].made_from(all[i].task.template()));
    }
    assert forall|i: int| 0 <= i < all.len() implies source.tasks().dom().contains(
        (#[trigger] all[i]).id,
    ) && source.tasks()[all[i].id] == all[i].task by {
        if i < source.pool().len() {
            assert(all[i] == source.pool()[i]);
        } else {
            assert(all[i] == source.recall()[i - source.pool().len()]);
        }
    }
    assert forall|template: s_text_input_f::BlocksWithAnswer|
        templates(&migrated).contains(template) implies templates(&source).contains(template) by {
        let id = choose|id: TaskId|
            migrated.tasks().dom().contains(id) && #[trigger] migrated.tasks()[id].template()
                == template;
        assert(ids.to_set().contains(id));
        let i = choose|i: int| 0 <= i < ids.len() && ids[i] == id;
        assert(migrated.tasks()[ids[i]].template() == all[i].task.template());
        assert(source.tasks()[all[i].id].template() == template);
    }
    assert forall|template: s_text_input_f::BlocksWithAnswer|
        templates(&source).contains(template) implies templates(&migrated).contains(template) by {
        let id = choose|id: TaskId|
            source.tasks().dom().contains(id) && #[trigger] source.tasks()[id].template()
                == template;
        assert(source.pool_ids().union(source.recall_ids()).contains(id));
        let i = if has_id(source.pool(), id) {
            index_of_id(source.pool(), id)
        } else {
            source.pool().len() + index_of_id(source.recall(), id)
        };
        assert(0 <= i < all.len() && all[i].id == id);
        assert(migrated.tasks()[ids[i]].template() == all[i].task.template());
        assert(ids.to_set().contains(ids[i]));
        assert(migrated.tasks().dom().contains(ids[i]));
    }
    assert(templates(&migrated) =~= templates(&source));
}

} // verus!
