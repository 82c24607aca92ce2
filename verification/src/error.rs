//! Why a facade refuses a request.

use crate::task::TaskId;
use vstd::prelude::*;

verus! {

/// The ways in which a call on a facade fails.
#[derive(Debug)]
pub enum Error {
    /// The facade holds no task at all.
    NoTask,
    /// Tasks exist but none is due. The span is the time in nanoseconds until
    /// the earliest one is.
    NoTaskToComplete { time_until_next_repetition: u128 },
    /// The interaction failed during a review.
    IO(std::io::Error),
    /// The desired retention is not in `(0, 1]`.
    InvalidRetention,
    /// Two of the entries that a facade was to be restored from have this
    /// identifier.
    DuplicateId { id: TaskId },
}

} // verus!
