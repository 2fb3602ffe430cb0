//! The random choices of a simulation, drawn from a seeded generator so that a
//! run can be replayed from its seed.
use vstd::prelude::*;
use rand::rngs::StdRng;
use rand::seq::SliceRandom;
use rand::Rng;

verus! {

/// rand's seeded generator `StdRng`; only the two wrappers below read it.
#[verifier::external_type_specification]
#[verifier::external_body]
pub struct ExStdRng(StdRng);

/// `rand::Rng::gen_range(0..len)` on a seeded generator: some position below
/// `len` (which one depends on the generator's state). It panics on an empty
/// range, hence `len > 0`.
#[verifier::external_body]
pub(crate) fn random_index(rng: &mut StdRng, len: usize) -> (i: usize)
    requires
        len > 0,
    ensures
        i < len,
{
    rng.gen_range(0..len)
}

/// `rand::seq::SliceRandom::choose` on a seeded generator: one of the items,
/// or `None` exactly when there are none (which one depends on the generator's
/// state).
#[verifier::external_body]
pub(crate) fn random_choice<T: Copy>(rng: &mut StdRng, items: &[T]) -> (r: Option<T>)
    ensures
        items@.len() == 0 <==> r is None,
        r matches Some(x) ==> items@.contains(x),
{
    items.choose(rng).copied()
}

} // verus!
