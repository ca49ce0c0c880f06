use vstd::prelude::*;

verus! {

/// rand's standard seedable generator, declared so that verified code can
/// thread one generator handle through every collapse call.
#[verifier::external_type_specification]
#[verifier::external_body]
pub struct ExStdRng(rand::rngs::StdRng);

/// Relies on rand's `RngExt::random_range`: a sample drawn from `0..bound`
/// lies below `bound`. The range is nonempty, so the call cannot panic.
/// Nothing more is assumed of the sample: every caller must be correct
/// whichever index comes back.
#[verifier::external_body]
pub(crate) fn gen_index(rng: &mut rand::rngs::StdRng, bound: usize) -> (r: usize)
    requires
        bound >= 1,
    ensures
        r < bound,
{
    rand::RngExt::random_range(rng, 0..bound)
}

} // verus!
