use rand::rngs::StdRng;
use vstd::prelude::*;

verus! {

#[verifier::external_type_specification]
#[verifier::external_body]
pub struct ExStdRng(StdRng);

/// One use of the random source, as seen by the evaluation rules.
pub enum Draw {
    /// A number drawn below a bound: the number, then the bound.
    Pick(nat, nat),
    /// A fresh ordering of the indices of a branch.
    Order(Seq<usize>),
}

/// The indices `0, 1, ..., n - 1` in increasing order.
pub open spec fn index_range(n: nat) -> Seq<usize> {
    Seq::new(n, |i: int| i as usize)
}

/// `p` holds each index below `n` exactly once.
pub open spec fn is_ordering(p: Seq<usize>, n: nat) -> bool {
    p.len() == n && p.to_multiset() == index_range(n).to_multiset()
}

/// A draw that the random source can hand out: a number below its bound, or an ordering of
/// the indices below its length.
pub open spec fn draw_valid(d: Draw) -> bool {
    match d {
        Draw::Pick(v, bound) => v < bound,
        Draw::Order(p) => is_ordering(p, p.len()),
    }
}

/// Every draw among `draws` is one that the random source can hand out.
pub open spec fn draws_valid(draws: Seq<Draw>) -> bool {
    forall|i: int| 0 <= i < draws.len() ==> draw_valid(#[trigger] draws[i])
}

/// Relies on `rand::Rng::random_range`: a value of the non-empty range `0..bound`.
#[verifier::external_body]
pub(crate) fn draw_below(rng: &mut StdRng, bound: u64) -> (r: u64)
    requires
        bound > 0,
    ensures
        r < bound,
{
    rand::Rng::random_range(rng, 0..bound)
}

/// Relies on `rand::seq::SliceRandom::shuffle`: the elements are permuted in place.
#[verifier::external_body]
pub(crate) fn shuffle(rng: &mut StdRng, v: &mut Vec<usize>)
    ensures
        final(v)@.len() == old(v)@.len(),
        final(v)@.to_multiset() == old(v)@.to_multiset(),
{
    rand::seq::SliceRandom::shuffle(v.as_mut_slice(), rng)
}

/// Relies on `rand::SeedableRng::try_from_os_rng`: a generator seeded by the operating
/// system, or `None` where the system could not supply entropy.
#[verifier::external_body]
pub(crate) fn try_os_seeded_rng() -> (r: Option<StdRng>) {
    <StdRng as rand::SeedableRng>::try_from_os_rng().ok()
}

/// Relies on `rand::SeedableRng::seed_from_u64`: a generator seeded by `seed`.
#[verifier::external_body]
pub(crate) fn seeded_rng(seed: u64) -> (r: StdRng) {
    <StdRng as rand::SeedableRng>::seed_from_u64(seed)
}

} // verus!
