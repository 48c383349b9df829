use vstd::prelude::*;
use rand::Rng;

verus! {

/// The thread-local generator of the `rand` crate, carried through opaquely.
#[verifier::external_type_specification]
#[verifier::external_body]
pub struct ExThreadRng(rand::rngs::ThreadRng);

/// Calls `rand::random::<usize>()`. Any `usize` may come back: nothing is promised
/// of the value, and two calls may differ.
#[verifier::external_body]
pub(crate) fn random_usize() -> usize {
    rand::random::<usize>()
}

/// Calls `rand::random::<bool>()`. Either value may come back.
#[verifier::external_body]
pub(crate) fn random_bool() -> bool {
    rand::random::<bool>()
}

/// Calls `rand::thread_rng()`, the handle to the thread-local generator.
#[verifier::external_body]
pub(crate) fn thread_rng() -> rand::rngs::ThreadRng {
    rand::thread_rng()
}

/// Calls `Rng::gen_range(lo..hi)` on `rng`. The crate asserts that the range is
/// not empty (hence the `requires`) and documents that the value lies in it; which
/// value of the range comes back is left to chance.
#[verifier::external_body]
pub(crate) fn gen_range_u32(rng: &mut rand::rngs::ThreadRng, lo: u32, hi: u32) -> (r: u32)
    requires
        lo < hi,
    ensures
        lo <= r < hi,
{
    rng.gen_range(lo..hi)
}

} // verus!
