use vstd::prelude::*;
use rand::seq::SliceRandom;

verus! {

#[verifier::external_type_specification]
#[verifier::external_body]
pub struct ExThreadRng(rand::rngs::ThreadRng);

/// Calls `rand::rng()`, a handle to the generator of the current thread.
/// Nothing is claimed of it: every draw from it is random. Left unsaid: the
/// first call on a thread panics if the operating system cannot seed the
/// generator.
#[verifier::external_body]
pub(crate) fn thread_rng() -> (r: rand::rngs::ThreadRng) {
    rand::rng()
}

/// Calls `SliceRandom::shuffle` on the vector's elements. The claim is that
/// the result is a rearrangement of the input: the same elements, each as
/// often as before (the source swaps elements pairwise). Which order comes
/// out is left open.
#[verifier::external_body]
pub(crate) fn shuffle<T>(v: &mut Vec<T>, rng: &mut rand::rngs::ThreadRng)
    ensures
        final(v)@.to_multiset() == old(v)@.to_multiset(),
{
    v.shuffle(rng);
}

} // verus!
