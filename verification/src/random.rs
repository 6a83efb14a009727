//! The seeded pseudo-random generator, as one stream of draws.
//!
//! A generator is a value of `rand::rngs::StdRng`. What it will produce is
//! fixed by its internal state, and every draw moves that state on, so the
//! contracts below thread the state through: the same seed and the same
//! draws in the same order give the same results.

use crate::lattice::Edge;
use rand::Rng;
use rand::SeedableRng;
use rand::rngs::StdRng;
use rand::seq::SliceRandom;
use vstd::prelude::*;

verus! {

/// `rand::rngs::StdRng`, seen only through `generator_state`.
#[verifier::external_type_specification]
#[verifier::external_body]
pub struct ExStdRng(StdRng);

/// The internal state of a generator: its key and its position in the
/// stream.
pub uninterp spec fn generator_state(rng: StdRng) -> Seq<u8>;

/// The state of a generator freshly made from `seed`.
pub uninterp spec fn seeded_state(seed: u64) -> Seq<u8>;

/// What shuffling `len` items does with a generator in `state`: the order in
/// which the old positions appear afterwards, and the generator's next state.
pub uninterp spec fn shuffle_draw(state: Seq<u8>, len: nat) -> (Seq<int>, Seq<u8>);

/// What drawing a number below `bound` does with a generator in `state`: the
/// number, and the generator's next state.
pub uninterp spec fn range_draw(state: Seq<u8>, bound: u64) -> (u64, Seq<u8>);

/// The items of `items`, with position `i` taken by the item that stood at
/// `order[i]`.
pub open spec fn rearranged<T>(items: Seq<T>, order: Seq<int>) -> Seq<T> {
    Seq::new(items.len(), |i: int| items[order[i]])
}

/// `StdRng::seed_from_u64`: the generator that `seed` determines.
#[verifier::external_body]
pub(crate) fn seed_generator(seed: u64) -> (rng: StdRng)
    ensures
        generator_state(rng) == seeded_state(seed),
{
    StdRng::seed_from_u64(seed)
}

/// `SliceRandom::shuffle` on the edge list: the list is rearranged in place,
/// by swaps alone, in an order fixed by the generator's state and the
/// list's length; the generator moves on. The positions to swap are drawn
/// as 32-bit numbers wherever the length allows, and as words only for
/// lengths that no 32-bit machine can hold, so that the order does not
/// depend on the machine.
#[verifier::external_body]
pub(crate) fn shuffle_edges(edges: &mut Vec<Edge>, rng: &mut StdRng)
    ensures
        final(edges)@ == rearranged(
            old(edges)@,
            shuffle_draw(generator_state(*old(rng)), old(edges)@.len()).0,
        ),
        final(edges)@.to_multiset() == old(edges)@.to_multiset(),
        generator_state(*final(rng)) == shuffle_draw(
            generator_state(*old(rng)),
            old(edges)@.len(),
        ).1,
{
    edges.shuffle(rng)
}

/// `Rng::gen_range` on `0..bound`: a number below `bound`, fixed by the
/// generator's state; the generator moves on. An empty range panics. The
/// bound is a `u64`, not a `usize`, because the number drawn depends on the
/// width of the type.
#[verifier::external_body]
pub(crate) fn draw_below(rng: &mut StdRng, bound: u64) -> (value: u64)
    requires
        bound > 0,
    ensures
        value == range_draw(generator_state(*old(rng)), bound).0,
        value < bound,
        generator_state(*final(rng)) == range_draw(generator_state(*old(rng)), bound).1,
{
    rng.gen_range(0..bound)
}

} // verus!
