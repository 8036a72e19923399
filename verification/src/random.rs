use rand::rngs::StdRng;
use rand::seq::SliceRandom;
use vstd::prelude::*;

verus! {

/// `rand::rngs::StdRng`, the standard generator of the `rand` crate. The library carries
/// it from `Random::get_rng` to `shuffle` and looks at nothing inside it.
#[verifier::external_type_specification]
#[verifier::external_body]
pub struct ExStdRng(StdRng);

/// Source of the pseudo-random choices made by the population and by the local search.
///
/// Implemented by the user of the library. What is proved of a function that draws
/// numbers holds for implementations that keep to the range stated for `uniform_int`.
pub trait Random {
    /// Draws an integer from the half-open range `[low, high)`.
    fn uniform_int(&mut self, low: i32, high: i32) -> (value: i32)
        requires
            low < high,
        ensures
            low <= value < high,
    ;

    /// Hands out a generator for operations that permute a whole slice.
    fn get_rng(&mut self) -> StdRng;
}

/// Calls `rand::seq::SliceRandom::shuffle` on the slice of `order`.
///
/// The call only swaps elements of the slice, so the elements after the call are
/// those before it, each as often as before; their order is left open.
#[verifier::external_body]
pub(crate) fn shuffle(order: &mut Vec<usize>, rng: &mut StdRng)
    ensures
        final(order)@.to_multiset() == old(order)@.to_multiset(),
{
    order.shuffle(rng);
}

} // verus!
