//! Random draws, from the `rand` crate.

use crate::river::RiverIdx;
use rand::Rng;
use vstd::prelude::*;

verus! {

/// The generator type of `rand`, of which nothing is known here.
#[verifier::external_type_specification]
#[verifier::external_body]
pub struct ExThreadRng(rand::ThreadRng);

/// `rand::thread_rng`: the generator of the running thread. Nothing is
/// claimed of it.
pub assume_specification[ rand::thread_rng ]() -> (rng: rand::ThreadRng)
;

/// `rand::Rng::gen_range` from zero up to `bound`. Trusted: the number drawn
/// is below `bound`, which the crate documents for a range of integers and
/// which its rejection sampling shows. Nothing more is claimed: the draw
/// depends on the generator. The crate panics on an empty range, hence the
/// demand that `bound` be positive.
#[verifier::external_body]
pub(crate) fn random_index(rng: &mut rand::ThreadRng, bound: usize) -> (index: usize)
    requires
        bound > 0,
    ensures
        index < bound,
{
    rng.gen_range(0, bound)
}

/// `rand::Rng::choose` on the entries of `values`. Trusted: the crate
/// returns nothing for an empty slice and otherwise one of its elements.
/// Which one depends on the generator.
#[verifier::external_body]
pub(crate) fn random_choice(rng: &mut rand::ThreadRng, values: &Vec<RiverIdx>) -> (chosen: Option<
    RiverIdx,
>)
    ensures
        values@.len() == 0 ==> chosen is None,
        values@.len() > 0 ==> chosen is Some && values@.contains(chosen->0),
{
    rng.choose(values.as_slice()).copied()
}

} // verus!
