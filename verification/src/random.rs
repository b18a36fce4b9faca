//! The random choices of the generator, drawn from the `rand` crate. Nothing here is proved:
//! each item states what the crate's functions hand back on every draw, and no more.

use rand::rngs::OsRng;
use rand::rngs::StdRng;
use rand::seq::SliceRandom;
use rand::Rng;
use rand::SeedableRng;
use vstd::prelude::*;

verus! {

/// `rand::rngs::StdRng`, the crate's standard random number generator. Nothing is known of
/// its state.
#[verifier::external_type_specification]
#[verifier::external_body]
pub struct ExStdRng(rand::rngs::StdRng);

/// `rand::Error`, what the crate reports where a source of random numbers fails. Nothing is
/// known of what it holds.
#[verifier::external_type_specification]
#[verifier::external_body]
pub struct ExError(rand::Error);

/// `SeedableRng::from_rng` on `OsRng`: a generator seeded by the operating system, or the
/// error of the operating system where it has no random bytes to give. Nothing is claimed
/// of either.
#[verifier::external_body]
pub(crate) fn fresh_generator() -> (seeding: Result<StdRng, rand::Error>) {
    StdRng::from_rng(OsRng)
}

/// `Rng::gen_range(0, bound)`: a number in `0..bound`. The crate panics where the range is
/// empty, so `bound` has to be positive. It draws again for as long as a draw falls
/// outside the zone that it accepts.
#[verifier::external_body]
pub(crate) fn random_below(rng: &mut StdRng, bound: usize) -> (pick: usize)
    requires
        bound > 0,
    ensures
        pick < bound,
{
    rng.gen_range(0, bound)
}

/// `SliceRandom::choose`: one element of the values, or `None` where there is none.
#[verifier::external_body]
pub(crate) fn pick_one<'a>(rng: &mut StdRng, values: &'a Vec<u8>) -> (pick: Option<&'a u8>)
    ensures
        values@.len() == 0 ==> pick is None,
        values@.len() > 0 ==> pick is Some && values@.contains(*pick.unwrap()),
{
    values.choose(rng)
}

/// `SliceRandom::shuffle`: reorders the values in place. The crate does so by swapping
/// elements, so the same values stand there afterwards, each as often as before.
#[verifier::external_body]
pub(crate) fn shuffle(rng: &mut StdRng, values: &mut Vec<usize>)
    ensures
        final(values)@.to_multiset() == old(values)@.to_multiset(),
{
    values.shuffle(rng)
}

} // verus!
