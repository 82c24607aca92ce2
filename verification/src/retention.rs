//! Desired retention, carried as the bit pattern of an IEEE-754 double.
//!
//! Among the patterns with a clear sign bit, doubles are ordered as their
//! patterns are. The pattern 0 is `+0.0`, the pattern of `1.0` is
//! [`RETENTION_ONE`], every larger pattern is a double above one, an infinity, a
//! negative double or a NaN. So the doubles in `(0, 1]` are exactly the patterns
//! in `1 ..= RETENTION_ONE`, and the range check needs no floating point.

use vstd::prelude::*;

verus! {

/// Bit pattern of the double `1.0`.
pub const RETENTION_ONE: u64 = 0x3FF0_0000_0000_0000;

/// Whether `bits` is the pattern of a double in `(0, 1]`.
pub open spec fn valid_retention(bits: u64) -> bool {
    0 < bits <= RETENTION_ONE
}

/// Decides [`valid_retention`].
pub fn is_valid_retention(bits: u64) -> (valid: bool)
    ensures
        valid == valid_retention(bits),
{
    0 < bits && bits <= RETENTION_ONE
}

} // verus!
