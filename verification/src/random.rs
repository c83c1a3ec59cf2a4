use vstd::prelude::*;

use rand::distributions::Distribution;
use rand::Rng;

verus! {

/// Sum of a sequence of weights.
pub open spec fn sum_u64(ws: Seq<u64>) -> int
    decreases ws.len(),
{
    if ws.len() == 0 {
        0
    } else {
        sum_u64(ws.drop_last()) + ws.last()
    }
}

/// A sequence of weights bounded by `w` sums to at most `len * w`.
pub proof fn lemma_sum_bound(ws: Seq<u64>, w: u64)
    requires
        forall|k: int| 0 <= k < ws.len() ==> #[trigger] ws[k] <= w,
    ensures
        0 <= sum_u64(ws) <= ws.len() * w,
    decreases ws.len(),
{
    if ws.len() > 0 {
        lemma_sum_bound(ws.drop_last(), w);
        assert((ws.len() - 1) * w + w == ws.len() * w) by (nonlinear_arith);
    }
}

/// Relies on `rand::thread_rng` and `rand::Rng::gen_range`: a draw from the
/// half-open range `[0, n)`, which is rejected when empty.
#[verifier::external_body]
pub fn random_below(n: usize) -> (r: usize)
    requires
        n >= 1,
    ensures
        r < n,
{
    rand::thread_rng().gen_range(0..n)
}

/// Relies on `rand::distributions::WeightedIndex::new` and its
/// `Distribution::sample`: `new` accepts a nonempty weight list whose total
/// is positive and does not overflow, and `sample` returns the index of one
/// entry of positive weight.
#[verifier::external_body]
pub fn random_weighted(weights: &Vec<u64>) -> (r: usize)
    requires
        weights@.len() >= 1,
        sum_u64(weights@) > 0,
        sum_u64(weights@) <= u64::MAX,
    ensures
        r < weights@.len(),
        weights@[r as int] > 0,
{
    let dist = rand::distributions::WeightedIndex::new(weights.iter()).unwrap();
    dist.sample(&mut rand::thread_rng())
}

} // verus!
