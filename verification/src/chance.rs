use rand::distributions::WeightedIndex;
use rand::distributions::Distribution;
use rand::seq::SliceRandom;
use rand::Rng;
use vstd::prelude::*;

verus! {

/// The sum of the weights.
pub open spec fn weight_sum(weights: Seq<u32>) -> int
    decreases weights.len(),
{
    if weights.len() == 0 {
        0
    } else {
        weight_sum(weights.drop_last()) + weights.last()
    }
}

/// A number from `low` to `high`, both included, as `Rng::gen_range`
/// draws it from the thread's generator. The range must not be empty:
/// `gen_range` panics on an empty one.
#[verifier::external_body]
pub(crate) fn between(low: usize, high: usize) -> (n: usize)
    requires
        low <= high,
    ensures
        low <= n <= high,
{
    rand::thread_rng().gen_range(low..=high)
}

/// `true` or `false`, as `Rng::gen` draws a `bool` from the thread's generator.
#[verifier::external_body]
pub(crate) fn flip() -> bool {
    rand::thread_rng().gen::<bool>()
}

/// An index into `weights`, as a `WeightedIndex` of these weights samples
/// it with the thread's generator. `WeightedIndex::new` refuses an empty
/// list and one whose weights are all zero, and adds the weights up in
/// `u32`; the index that `sample` gives counts cumulative weights, of
/// which there is one less than weights.
#[verifier::external_body]
pub(crate) fn weighted(weights: &Vec<u32>) -> (index: usize)
    requires
        weights@.len() > 0,
        0 < weight_sum(weights@) <= u32::MAX,
    ensures
        index < weights@.len(),
{
    WeightedIndex::new(weights.iter()).unwrap().sample(&mut rand::thread_rng())
}

/// One of `items`, as `SliceRandom::choose` picks it with the thread's
/// generator; `None` where there is no item.
#[verifier::external_body]
pub(crate) fn pick(items: &Vec<usize>) -> (picked: Option<usize>)
    ensures
        match picked {
            Some(x) => items@.contains(x),
            None => items@.len() == 0,
        },
{
    items.choose(&mut rand::thread_rng()).copied()
}

} // verus!
