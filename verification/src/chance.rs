//! The random choices of the game, made by the `rand` crate. Nothing here is
//! proved: each contract states what the crate's source shows of the call.

use rand::rngs::ThreadRng;
use rand::seq::SliceRandom;
use rand::Rng;
use vstd::prelude::*;

verus! {

/// `rand::rngs::ThreadRng`, the generator that each thread keeps for itself.
/// Nothing is known of its state.
#[verifier::external_type_specification]
#[verifier::external_body]
pub struct ExThreadRng(ThreadRng);

/// `rand::thread_rng`: a handle to the generator of the running thread. The
/// first call on a thread seeds the generator from the system, and panics if
/// the system gives no seed.
#[verifier::external_body]
pub(crate) fn local_rng() -> ThreadRng {
    rand::thread_rng()
}

/// `Rng::gen_range` on `0..bound`: some number below `bound`. The call
/// panics on an empty range, so `bound` is not 0.
#[verifier::external_body]
pub(crate) fn roll(rng: &mut ThreadRng, bound: u32) -> (n: u32)
    requires
        bound > 0,
    ensures
        n < bound,
{
    rng.gen_range(0..bound)
}

/// `SliceRandom::shuffle`: swaps items of the slice among themselves, so
/// the same items are there afterwards, each as often as before.
#[verifier::external_body]
pub(crate) fn shuffle(rng: &mut ThreadRng, cards: &mut Vec<u64>)
    ensures
        final(cards)@.to_multiset() == old(cards)@.to_multiset(),
{
    cards.shuffle(rng);
}

/// `SliceRandom::choose`: one of the items, or `None` if there is none.
#[verifier::external_body]
pub(crate) fn pick_one<T: Copy>(rng: &mut ThreadRng, items: &Vec<T>) -> (picked: Option<T>)
    ensures
        items@.len() == 0 ==> picked is None,
        items@.len() > 0 ==> picked is Some && items@.contains(picked->0),
{
    items.choose(rng).copied()
}

/// `SliceRandom::choose_multiple`: `amount` items from different places of
/// the slice, or all of them if there are fewer, in any order.
#[verifier::external_body]
pub(crate) fn pick_several(rng: &mut ThreadRng, items: &Vec<usize>, amount: usize) -> (picked:
    Vec<usize>)
    ensures
        picked@.len() == if amount <= items@.len() { amount as nat } else { items@.len() },
        picked@.to_multiset().subset_of(items@.to_multiset()),
{
    items.choose_multiple(rng, amount).copied().collect()
}

} // verus!
