//! The pseudo-random source of the simulation: the generator type of the
//! `rand` crate and the draws that the simulation makes from it. Nothing in
//! this file is proved: each function states what `rand` documents of the
//! call that it makes.

use vstd::prelude::*;
use rand::rngs::StdRng;
use rand::seq::IteratorRandom;
use rand::seq::SliceRandom;
use rand::Rng;
use rand::SeedableRng;

verus! {

/// `rand::rngs::StdRng`, the generator that flows through a tick. Its state is
/// opaque to the verifier.
#[verifier::external_type_specification]
#[verifier::external_body]
pub struct ExStdRng(StdRng);

/// `Rng::gen_range` on `u32`: a value of the half-open range from `low` to
/// `high`. The call panics unless `low < high`.
#[verifier::external_body]
pub(crate) fn gen_range(rng: &mut StdRng, low: u32, high: u32) -> (r: u32)
    requires
        low < high,
    ensures
        low <= r < high,
{
    rng.gen_range(low, high)
}

/// `Rng::gen_ratio`: a boolean that is true with a chance of `numerator` in
/// `denominator`; never true for a numerator of zero, always true where the
/// two are equal. The call panics for a zero denominator and for a numerator
/// above the denominator.
#[verifier::external_body]
pub(crate) fn gen_ratio(rng: &mut StdRng, numerator: u32, denominator: u32) -> (r: bool)
    requires
        0 < denominator,
        numerator <= denominator,
    ensures
        numerator == 0 ==> !r,
        numerator == denominator ==> r,
{
    rng.gen_ratio(numerator, denominator)
}

/// `IteratorRandom::choose` over the items of `candidates`: one of them, or
/// `None` exactly when there is none.
#[verifier::external_body]
pub(crate) fn choose_index(rng: &mut StdRng, candidates: &Vec<usize>) -> (r: Option<usize>)
    ensures
        r is None <==> candidates@.len() == 0,
        r matches Some(i) ==> candidates@.contains(i),
{
    candidates.iter().copied().choose(rng)
}

/// `SliceRandom::choose` on a pool of names: one of its entries, or `None`
/// exactly when the pool is empty.
#[verifier::external_body]
pub(crate) fn choose_name<'a>(rng: &mut StdRng, pool: &'a Vec<String>) -> (r: Option<&'a String>)
    ensures
        r is None <==> pool@.len() == 0,
        r matches Some(name) ==> pool@.contains(*name),
{
    pool.choose(rng)
}

/// `SeedableRng::from_rng` for `StdRng`: a generator of its own, seeded from
/// the next output of `rng`.
#[verifier::external_body]
pub(crate) fn derive_rng(rng: &mut StdRng) -> (r: StdRng) {
    StdRng::from_rng(rng).unwrap()
}

/// `Clone::clone` for `StdRng`: a generator in the same state.
#[verifier::external_body]
pub(crate) fn copy_rng(rng: &StdRng) -> (r: StdRng) {
    rng.clone()
}

} // verus!
