//! Chance, as far as the decisions of this crate draw on it. The generator is
//! handed in by the caller, so that a render can be repeated from a seed.
use vstd::prelude::*;
use rand::seq::SliceRandom;

verus! {

/// `rand::rngs::StdRng`: a random generator that is made from a seed. Nothing
/// is said of its state.
#[verifier::external_type_specification]
#[verifier::external_body]
pub struct ExStdRng(rand::rngs::StdRng);

/// One of `candidates`, each with the same chance, by
/// `rand::seq::SliceRandom::choose`, which draws from `rng`. Nothing is
/// chosen from an empty list, and what is chosen is an entry of the list.
#[verifier::external_body]
pub(crate) fn choose_one(candidates: &Vec<usize>, rng: &mut rand::rngs::StdRng) -> (chosen: Option<
    usize,
>)
    ensures
        chosen.is_none() <==> candidates.len() == 0,
        chosen matches Some(c) ==> candidates@.contains(c),
{
    candidates.choose(rng).copied()
}

} // verus!
