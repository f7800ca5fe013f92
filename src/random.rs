use vstd::prelude::*;

verus! {

/// Relies on rand::Rng::gen_range on rand::thread_rng: a value in
/// `[low, high)`; gen_range panics on an empty range, which `requires`
/// rules out.
#[verifier::external_body]
pub(crate) fn random_in_range(low: i32, high: i32) -> (r: i32)
    requires
        low < high,
    ensures
        low <= r < high,
{
    rand::Rng::gen_range(&mut rand::thread_rng(), low..high)
}

} // verus!
