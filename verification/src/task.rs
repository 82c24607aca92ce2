//! What a facade asks of a review algorithm.

use crate::retention::valid_retention;
use vstd::prelude::*;

verus! {

/// Identifier of a task inside a facade: the `TaskId` of `ssr_core`, a 128-bit
/// number.
pub type TaskId = ssr_core::tasks_facade::TaskId;

/// `s_text_input_f::BlocksWithAnswer`, the content of a task together with its
/// correct answer. A facade hands such values through and never looks inside.
#[verifier::external_type_specification]
#[verifier::external_body]
pub struct ExBlocksWithAnswer(s_text_input_f::BlocksWithAnswer);

/// `s_text_input_f::Block`, one element of the content shown for a review.
#[verifier::external_type_specification]
#[verifier::external_body]
pub struct ExBlock(s_text_input_f::Block);

/// `std::io::Error`, the failure of an interaction.
#[verifier::external_type_specification]
#[verifier::external_body]
pub struct ExIoError(std::io::Error);

/// The exchange with the user during one review: the content of the task goes
/// out, the user's response or a failure comes back.
///
/// Nothing is assumed of an implementation. A facade never calls `interact`
/// itself, it hands the interaction and the identifier of the task under review
/// to [`Task::complete`].
pub trait Interaction {
    fn interact(&mut self, id: TaskId, blocks: s_text_input_f::Blocks) -> Result<
        s_text_input_f::Response,
        std::io::Error,
    >;
}

/// State shared by all the tasks of one facade, such as the fitted parameters of
/// their algorithm.
///
/// `initial_state` gives the state that a facade starts from, always the same
/// one, named `initial`. For an implementation that Verus has not checked this
/// is an assumption.
pub trait SharedState: Sized {
    /// The state that a facade starts from.
    spec fn initial() -> Self;

    fn initial_state() -> (state: Self)
        ensures
            state == Self::initial(),
    ;
}

/// A review task: content plus the history that its algorithm keeps.
///
/// The specification functions are the model that a facade reasons with, and an
/// implementation owes the clauses below. For an implementation that Verus has
/// not checked they are assumptions:
///
/// * `next_repetition` is a function of the task, the shared state and the
///   desired retention alone, named `due`. It must not read the clock.
/// * `get_blocks` returns the template of the task, named `template`.
/// * `new` establishes `made_from`, a relation of the implementation's own
///   choice; one that keeps its input verbatim takes `self.template() == input`.
/// * `complete` establishes `reviewed`, again a relation of the implementation's
///   own choice, and leaves the task as it was when it fails.
///
/// A desired retention is always handed over as a valid pattern (see
/// [`valid_retention`]).
pub trait Task: Sized {
    /// State shared by all the tasks of one facade.
    type SharedState: SharedState;

    /// The instant of the next repetition.
    spec fn due(&self, state: &Self::SharedState, retention: u64) -> i128;

    /// The content from which a task with the same content but no history can be
    /// built.
    spec fn template(&self) -> s_text_input_f::BlocksWithAnswer;

    /// What `new` promises of the task that it builds from `input`.
    spec fn made_from(&self, input: s_text_input_f::BlocksWithAnswer) -> bool;

    /// What `complete` promises of a review under the identifier `id` and the
    /// desired retention `retention`, which took the task from `before` to
    /// `self` and the shared state from `state_before` to `state_after`, and
    /// which succeeded or failed.
    spec fn reviewed(
        &self,
        before: &Self,
        state_before: &Self::SharedState,
        state_after: &Self::SharedState,
        retention: u64,
        id: TaskId,
        success: bool,
    ) -> bool;

    fn new(input: s_text_input_f::BlocksWithAnswer) -> (task: Self)
        ensures
            task.made_from(input),
    ;

    fn get_blocks(&self) -> (blocks: s_text_input_f::BlocksWithAnswer)
        ensures
            blocks == self.template(),
    ;

    fn next_repetition(&self, state: &Self::SharedState, retention: u64) -> (at: i128)
        requires
            valid_retention(retention),
        ensures
            at == self.due(state, retention),
    ;

    /// Runs one review of the task under identifier `id`. The task and the
    /// shared state take up the result.
    fn complete<I: Interaction>(
        &mut self,
        state: &mut Self::SharedState,
        retention: u64,
        id: TaskId,
        interaction: &mut I,
    ) -> (outcome: Result<(), std::io::Error>)
        requires
            valid_retention(retention),
        ensures
            outcome is Err ==> *final(self) == *old(self),
            final(self).reviewed(old(self), old(state), final(state), retention, id, outcome is Ok),
    ;
}

/// A shared state that can be fitted anew to the history of the tasks.
///
/// `optimize` is handed every task of the facade. It establishes `fitted`, a
/// relation of the implementation's own choice, and when it fails it must leave
/// the shared state as it was. For an implementation that Verus has not checked
/// these are assumptions.
pub trait SharedStateExt<T>: SharedState {
    /// Why the fit failed.
    type Failure;

    /// What `optimize` promises of a fit to `tasks`, which took the shared state
    /// from `before` to `self` and which succeeded or failed.
    spec fn fitted(&self, before: &Self, tasks: Vec<&T>, success: bool) -> bool;

    fn optimize(&mut self, tasks: Vec<&T>) -> (outcome: Result<(), Self::Failure>)
        ensures
            outcome is Err ==> *final(self) == *old(self),
            final(self).fitted(old(self), tasks, outcome is Ok),
    ;
}

} // verus!
