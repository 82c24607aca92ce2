//! The random choices of a facade, drawn from the `rand` crate.

use crate::task::TaskId;
use rand::Rng;
use vstd::prelude::*;

verus! {

/// `rand::rngs::ThreadRng`, the generator of the current thread.
#[verifier::external_type_specification]
#[verifier::external_body]
pub struct ExThreadRng(rand::rngs::ThreadRng);

/// `rand::thread_rng`: a handle to the generator of the current thread. Nothing
/// is claimed of it.
#[verifier::external_body]
pub(crate) fn thread_rng() -> rand::rngs::ThreadRng {
    rand::thread_rng()
}

/// `rand::Rng::gen_range` on the range `0..len`: a uniformly drawn value of that
/// range. The call panics on an empty range, so `len` must not be zero.
#[verifier::external_body]
pub(crate) fn gen_index(rng: &mut rand::rngs::ThreadRng, len: usize) -> (index: usize)
    requires
        len > 0,
    ensures
        index < len,
{
    rng.gen_range(0..len)
}

/// `rand::random`: a uniformly drawn identifier. Nothing is claimed of it, not
/// even that two calls differ.
#[verifier::external_body]
pub(crate) fn random_id() -> TaskId {
    rand::random()
}

} // verus!
