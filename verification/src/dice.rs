//! The seeded generator that every random decision is drawn from.
//!
//! The generator itself is `rand`'s `StdRng`. Its draws are not computed
//! here: each one is given a name, so that what a generation returns can be
//! stated as a function of the seed and the parameters alone.

use rand::distributions::{Distribution, WeightedIndex};
use rand::rngs::StdRng;
use rand::{Rng, SeedableRng};
use vstd::prelude::*;

verus! {

/// `rand::rngs::StdRng`, carried through as an opaque value. All that is
/// said of it is said through `rng_state`.
#[verifier::external_type_specification]
#[verifier::external_body]
pub struct ExStdRng(rand::rngs::StdRng);

/// The internal state of a generator: what all its future draws depend on.
pub uninterp spec fn rng_state(rng: StdRng) -> Seq<u8>;

/// The state of a generator freshly made by `StdRng::seed_from_u64(seed)`.
pub uninterp spec fn seeded_state(seed: u64) -> Seq<u8>;

/// What `gen_range(low..high)` on a `usize` of `bits` bits returns in a
/// given state, and the state it leaves.
pub uninterp spec fn range_draw(state: Seq<u8>, low: int, high: int, bits: int) -> (int, Seq<u8>);

/// What `gen_range(low..=high)` on a `usize` of `bits` bits returns in a
/// given state, and the state it leaves.
pub uninterp spec fn span_draw(state: Seq<u8>, low: int, high: int, bits: int) -> (int, Seq<u8>);

/// The draw from `low..high` on this machine's `usize`.
pub open spec fn below(state: Seq<u8>, low: int, high: int) -> (int, Seq<u8>) {
    range_draw(state, low, high, usize::BITS as int)
}

/// The draw from `low..=high` on this machine's `usize`.
pub open spec fn through(state: Seq<u8>, low: int, high: int) -> (int, Seq<u8>) {
    span_draw(state, low, high, usize::BITS as int)
}

/// What `gen_range(low..high)` on `i32` returns in a given state, and the
/// state it leaves.
pub uninterp spec fn small_draw(state: Seq<u8>, low: int, high: int) -> (int, Seq<u8>);

/// The index that a `WeightedIndex` over `weights` samples in a given state,
/// and the state it leaves.
pub uninterp spec fn weighted_draw(state: Seq<u8>, weights: Seq<i32>) -> (int, Seq<u8>);

/// The sum of a list of weights.
pub open spec fn total_weight(weights: Seq<i32>) -> int
    decreases weights.len(),
{
    if weights.len() == 0 {
        0
    } else {
        total_weight(weights.drop_last()) + weights.last()
    }
}

/// Calls `StdRng::seed_from_u64`. The claim is that the generator's state
/// is a function of the seed: equal seeds give generators that draw alike.
#[verifier::external_body]
pub(crate) fn seeded(seed: u64) -> (rng: StdRng)
    ensures
        rng_state(rng) == seeded_state(seed),
{
    StdRng::seed_from_u64(seed)
}

/// Calls `Rng::gen_range` with the half-open range `low..high` of `usize`.
/// The claim is that the value lies in the range, and that value and
/// following state are functions of the state before, the bounds and the
/// width of `usize`.
#[verifier::external_body]
pub(crate) fn draw_below(rng: &mut StdRng, low: usize, high: usize) -> (v: usize)
    requires
        low < high,
    ensures
        low <= v < high,
        v == range_draw(rng_state(*old(rng)), low as int, high as int, usize::BITS as int).0,
        rng_state(*final(rng)) == range_draw(
            rng_state(*old(rng)),
            low as int,
            high as int,
            usize::BITS as int,
        ).1,
{
    rng.gen_range(low..high)
}

/// Calls `Rng::gen_range` with the closed range `low..=high` of `usize`.
/// The claim is that the value lies in the range, and that value and
/// following state are functions of the state before, the bounds and the
/// width of `usize`.
#[verifier::external_body]
pub(crate) fn draw_through(rng: &mut StdRng, low: usize, high: usize) -> (v: usize)
    requires
        low <= high,
    ensures
        low <= v <= high,
        v == span_draw(rng_state(*old(rng)), low as int, high as int, usize::BITS as int).0,
        rng_state(*final(rng)) == span_draw(
            rng_state(*old(rng)),
            low as int,
            high as int,
            usize::BITS as int,
        ).1,
{
    rng.gen_range(low..=high)
}

/// Calls `Rng::gen_range` with the half-open range `low..high` of `i32`.
/// The claim is that the value lies in the range, and that value and
/// following state are functions of the state before and the bounds.
#[verifier::external_body]
pub(crate) fn draw_small(rng: &mut StdRng, low: i32, high: i32) -> (v: i32)
    requires
        low < high,
    ensures
        low <= v < high,
        v == small_draw(rng_state(*old(rng)), low as int, high as int).0,
        rng_state(*final(rng)) == small_draw(rng_state(*old(rng)), low as int, high as int).1,
{
    rng.gen_range(low..high)
}

/// Builds a `WeightedIndex` over `weights` with `WeightedIndex::new` and
/// samples it once with `Distribution::sample`. The two calls stand
/// together because the table's type is bounded by a trait of `rand` and
/// cannot be named between them. The claim is that the sampled index is
/// that of an entry with a positive weight, and that index and following
/// state are functions of the state before and the weights.
#[verifier::external_body]
pub(crate) fn draw_weighted(rng: &mut StdRng, weights: &Vec<i32>) -> (v: usize)
    requires
        weights@.len() > 0,
        forall|i: int| 0 <= i < weights@.len() ==> weights@[i] >= 0,
        0 < total_weight(weights@) <= i32::MAX,
    ensures
        v < weights@.len(),
        weights@[v as int] > 0,
        v == weighted_draw(rng_state(*old(rng)), weights@).0,
        rng_state(*final(rng)) == weighted_draw(rng_state(*old(rng)), weights@).1,
{
    WeightedIndex::new(weights).unwrap().sample(rng)
}

/// Draws a seed from `rand::thread_rng()`. Nothing is claimed of it.
#[verifier::external_body]
pub(crate) fn fresh_seed() -> u64 {
    rand::thread_rng().gen()
}

} // verus!
