//! Scheduling core of a spaced-repetition review system.
//!
//! A [`Facade`] owns a set of review tasks, each under a unique identifier, and
//! splits them into a pool of tasks that are not yet due, kept in ascending order
//! of their next repetition, and a batch of tasks to recall. The review algorithm
//! itself is supplied by the caller through the [`Task`] trait.
//!
//! Instants are signed nanoseconds relative to the Unix epoch, spans are
//! nanoseconds, and a desired retention is the bit pattern of a double (see
//! [`retention`]): the library itself never computes with floating point.

pub mod clock;
pub mod error;
pub mod facade;
pub mod ident;
pub mod laws;
pub mod ordered;
mod random;
pub mod retention;
pub mod task;
pub mod time;
pub mod wrapper;

pub use error::Error;
pub use facade::Facade;
pub use retention::{is_valid_retention, valid_retention, RETENTION_ONE};
pub use task::{Interaction, SharedState, SharedStateExt, Task, TaskId};
pub use time::{due_by, is_due_by, seconds_and_nanos, time_until, wait, LOOKAHEAD};
pub use wrapper::TaskWrapper;
