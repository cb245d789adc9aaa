use nannou::rand::rngs::StdRng;
use nannou::rand::seq::SliceRandom;
use nannou::rand::SeedableRng;
use vstd::prelude::*;

verus! {

/// The seedable generator that draws the visiting orders.
#[verifier::external_type_specification]
#[verifier::external_body]
pub struct ExStdRng(StdRng);

/// Relies on `SeedableRng::seed_from_u64` of rand's `StdRng`: a generator
/// whose whole stream is fixed by `seed`.
#[verifier::external_body]
pub(crate) fn seeded_rng(seed: u64) -> StdRng {
    StdRng::seed_from_u64(seed)
}

/// Relies on `SliceRandom::shuffle`, which only swaps elements: the result
/// holds the same elements, each as often, in an order drawn from `rng`.
#[verifier::external_body]
pub(crate) fn shuffle(v: &mut Vec<usize>, rng: &mut StdRng)
    ensures
        final(v)@.to_multiset() == old(v)@.to_multiset(),
{
    v.shuffle(rng);
}

/// The flat indices of `n` cells, in order.
pub open spec fn index_seq(n: nat) -> Seq<usize> {
    Seq::new(n, |i: int| i as usize)
}

/// Whether `o` visits each of the `n` flat indices exactly once.
pub open spec fn is_visit_order(o: Seq<usize>, n: nat) -> bool {
    o.to_multiset() == index_seq(n).to_multiset()
}

/// The flat indices `0, 1, ..., n - 1`.
pub fn all_indices(n: usize) -> (r: Vec<usize>)
    ensures
        r@ == index_seq(n as nat),
{
    let mut r: Vec<usize> = Vec::with_capacity(n);
    let mut i: usize = 0;
    while i < n
        invariant
            i <= n,
            r@ == index_seq(i as nat),
        decreases n - i,
    {
        r.push(i);
        i = i + 1;
        assert(r@ =~= index_seq(i as nat));
    }
    r
}

/// A shuffled visiting order of the `n` flat indices, drawn from `rng`.
pub fn shuffled_indices(n: usize, rng: &mut StdRng) -> (r: Vec<usize>)
    ensures
        is_visit_order(r@, n as nat),
{
    let mut r = all_indices(n);
    shuffle(&mut r, rng);
    r
}

} // verus!
