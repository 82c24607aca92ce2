//! Instants and spans as integers.
//!
//! An instant is a signed count of nanoseconds relative to the Unix epoch, a span
//! an unsigned count of nanoseconds. The functions here compare and subtract
//! instants without overflow, whatever the operands.

use vstd::prelude::*;

verus! {

/// How far ahead of the current instant a task already counts as due: ten
/// seconds, so that tasks due within the same short window form one batch.
pub const LOOKAHEAD: u64 = 10_000_000_000;

/// Whether an instant `due` is no later than `now + lookahead`.
pub open spec fn due_by(due: i128, now: i128, lookahead: u64) -> bool {
    due as int <= now as int + lookahead as int
}

/// The span from `now` until `due`, zero when `due` is not in the future.
pub open spec fn wait(due: i128, now: i128) -> int {
    if due as int > now as int {
        due as int - now as int
    } else {
        0
    }
}

/// Decides [`due_by`].
pub fn is_due_by(due: i128, now: i128, lookahead: u64) -> (is_due: bool)
    ensures
        is_due == due_by(due, now, lookahead),
{
    let span: i128 = lookahead as i128;
    if now > i128::MAX - span {
        true
    } else {
        due <= now + span
    }
}

/// Computes [`wait`].
pub fn time_until(due: i128, now: i128) -> (span: u128)
    ensures
        span as int == wait(due, now),
{
    if due <= now {
        0
    } else if now >= 0 {
        (due - now) as u128
    } else if due < 0 {
        (due - now) as u128
    } else {
        let below: u128 = (-(now + 1)) as u128;
        due as u128 + below + 1
    }
}

/// Nanoseconds in a second.
pub const NANOS_PER_SECOND: u32 = 1_000_000_000;

/// A span as whole seconds and the nanoseconds beyond them. A span of more
/// seconds than fit is cut down to the longest one that can be told.
pub fn seconds_and_nanos(span: u128) -> (parts: (u64, u32))
    ensures
        parts.1 < NANOS_PER_SECOND,
        parts.1 == span % (NANOS_PER_SECOND as u128),
        span / (NANOS_PER_SECOND as u128) <= u64::MAX ==> parts.0 as int * NANOS_PER_SECOND
            + parts.1 == span,
        span / (NANOS_PER_SECOND as u128) > u64::MAX ==> parts.0 == u64::MAX,
{
    let seconds: u128 = span / (NANOS_PER_SECOND as u128);
    let nanos: u32 = (span % (NANOS_PER_SECOND as u128)) as u32;
    assert(span == (span / 1_000_000_000) * 1_000_000_000 + span % 1_000_000_000);
    if seconds > u64::MAX as u128 {
        (u64::MAX, nanos)
    } else {
        (seconds as u64, nanos)
    }
}

} // verus!
