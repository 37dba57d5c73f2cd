use vstd::prelude::*;

use crate::Entity;

verus! {

#[verifier::external_type_specification]
#[verifier::external_body]
pub struct ExThreadRng(rand::rngs::ThreadRng);

/// Relies on rand::thread_rng: yields the thread-local generator handle.
#[verifier::external_body]
pub fn new_rng() -> (r: rand::rngs::ThreadRng) {
    rand::thread_rng()
}

/// Relies on rand::RngCore::next_u64: a pseudorandom word; nothing can be
/// promised of its value.
#[verifier::external_body]
pub fn rng_next_u64(rng: &mut rand::rngs::ThreadRng) -> (r: u64) {
    rand::RngCore::next_u64(rng)
}

/// Relies on rand::Rng::gen_range: a uniform draw from `lo..hi`; the call
/// panics on an empty range, so that case is excluded here.
#[verifier::external_body]
pub fn rng_range(rng: &mut rand::rngs::ThreadRng, lo: u64, hi: u64) -> (r: u64)
    requires
        lo < hi,
    ensures
        lo <= r < hi,
{
    rand::Rng::gen_range(rng, lo..hi)
}

/// Relies on rand::seq::SliceRandom::choose_multiple: draws
/// `min(amount, len)` elements of the slice at distinct indices, in random
/// order.
#[verifier::external_body]
pub fn choose_entities(rng: &mut rand::rngs::ThreadRng, v: &Vec<Entity>, amount: usize) -> (r: Vec<
    Entity,
>)
    ensures
        r@.len() == (if amount <= v@.len() {
            amount as int
        } else {
            v@.len() as int
        }),
        forall|i: int| 0 <= i < r@.len() ==> v@.contains(r@[i]),
        v@.no_duplicates() ==> r@.no_duplicates(),
{
    rand::seq::SliceRandom::choose_multiple(v.as_slice(), rng, amount).copied().collect()
}

} // verus!
