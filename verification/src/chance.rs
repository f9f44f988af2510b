//! What the game leaves to chance: the dice and the shuffling of the pools.
//!
//! The items of this file are believed, not proved: each states of a function of the
//! `rand` crate what that crate's source shows of it, and no more.
use rand::rngs::ThreadRng;
use rand::seq::SliceRandom;
use rand::Rng;
use vstd::prelude::*;

verus! {

/// `rand::rngs::ThreadRng`, the handle of a thread's random number generator. Nothing is
/// known of what it holds.
#[verifier::external_type_specification]
#[verifier::external_body]
pub struct ExThreadRng(rand::rngs::ThreadRng);

/// `rand::thread_rng` hands out the handle of the calling thread's generator. Nothing is
/// claimed of the handle.
pub assume_specification[ rand::thread_rng ]() -> (generator: rand::rngs::ThreadRng);

/// Draws a number with `Rng::gen_range` over the closed range from `low` to `high`. The
/// call panics on an empty range, which `low <= high` rules out; it returns a value of
/// the range, and which one is not known.
#[verifier::external_body]
pub(crate) fn gen_range_u8(generator: &mut ThreadRng, low: u8, high: u8) -> (drawn: u8)
    requires
        low <= high,
    ensures
        low <= drawn <= high,
{
    generator.gen_range(low..=high)
}

/// Whether `items` holds what `pool` holds, each item as often, in some order.
pub open spec fn is_shuffle_of<T>(items: Seq<T>, pool: Seq<T>) -> bool {
    items.to_multiset() == pool.to_multiset()
}

/// Shuffles a list in place with `SliceRandom::shuffle`, which does nothing to the list
/// but swap items of it. Afterwards the list holds what it held before, each item as
/// often; in which order is not known.
#[verifier::external_body]
pub(crate) fn shuffle<T>(items: &mut Vec<T>, generator: &mut ThreadRng)
    ensures
        is_shuffle_of(final(items)@, old(items)@),
{
    items.shuffle(generator);
}

} // verus!
