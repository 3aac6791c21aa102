use vstd::prelude::*;
use rand::seq::IteratorRandom;
use rand::Rng;

verus! {

/// `rand::thread_rng().gen::<u64>()`: a random id. Nothing is promised of the value.
#[verifier::external_body]
pub(crate) fn random_u64() -> u64 {
    rand::thread_rng().gen::<u64>()
}

/// `rand::seq::IteratorRandom::choose` over the ids, with the thread's generator: one of
/// them, or `None` when there is none. Which one is left open.
#[verifier::external_body]
pub(crate) fn choose_id(ids: &[u64]) -> (r: Option<u64>)
    ensures
        r is Some <==> ids@.len() > 0,
        r matches Some(x) ==> ids@.contains(x),
{
    ids.iter().choose(&mut rand::thread_rng()).cloned()
}

} // verus!
