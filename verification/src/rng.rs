use rand::Rng;
use vstd::prelude::*;

verus! {

/// Relies on rand::thread_rng and Rng::gen_range over `0..bound`: a
/// value drawn from [0, bound). It panics on an empty range, which the
/// precondition rules out. Nothing more is assumed of the draw.
#[verifier::external_body]
pub(crate) fn random_below(bound: usize) -> (r: usize)
    requires
        bound >= 1,
    ensures
        r < bound,
{
    rand::thread_rng().gen_range(0..bound)
}

} // verus!
