use vstd::prelude::*;

verus! {

/// Relies on rand's `thread_rng` and `Rng::gen_range`: a number drawn from the half-open
/// range `0..upper`, which `gen_range` requires to be non-empty.
#[verifier::external_body]
pub(crate) fn random_below(upper: usize) -> (r: usize)
    requires
        upper > 0,
    ensures
        r < upper,
{
    rand::Rng::gen_range(&mut rand::thread_rng(), 0..upper)
}

} // verus!
