use vstd::prelude::*;
use crate::rules::weight_sum;

verus! {

#[verifier::external_type_specification]
#[verifier::external_body]
pub struct ExStdRng(rand::rngs::StdRng);

/// Relies on rand_distr's `WeightedIndex` (that of rand 0.8): `new` accepts
/// nonempty, nonnegative weights whose running total fits the type, and
/// `sample` draws a position below the number of weights whose weight is
/// positive, with chance proportional to it.
#[verifier::external_body]
pub(crate) fn sample_index(rng: &mut rand::rngs::StdRng, weights: &Vec<u64>) -> (r: usize)
    requires
        weights@.len() > 0,
        weight_sum(weights@) <= u64::MAX,
        forall|k: int| 0 <= k < weights@.len() ==> weights@[k] > 0,
    ensures
        r < weights@.len(),
        weights@[r as int] > 0,
{
    match rand_distr::WeightedIndex::new(weights.iter().copied()) {
        Ok(d) => rand::Rng::sample(rng, &d),
        Err(_) => 0,
    }
}

} // verus!
