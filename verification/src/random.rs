//! The generator that a layout seeds, as the `rand` crate computes it.

use rand::Rng;
use rand::SeedableRng;
use rand::XorShiftRng;
use vstd::prelude::*;

verus! {

/// `rand::XorShiftRng`, an opaque value whose state is [`generator_words`].
#[verifier::external_type_specification]
#[verifier::external_body]
pub struct ExXorShiftRng(XorShiftRng);

/// The four words that a generator holds.
pub uninterp spec fn generator_words(rng: XorShiftRng) -> Seq<u32>;

/// What `Rng::shuffle` does from given generator words to so many values, where a `usize` has so
/// many bits: the old position of each value, and the words that it leaves.
pub uninterp spec fn shuffle_outcome(words: Seq<u32>, len: nat, usize_bits: nat) -> (
    Seq<int>,
    Seq<u32>,
);

/// What `Rng::gen_weighted_bool` gives from given generator words, and the words that it leaves.
pub uninterp spec fn weighted_bool_outcome(words: Seq<u32>, n: u32) -> (bool, Seq<u32>);

/// `order` lists each of the positions below `len` once.
pub open spec fn is_order(order: Seq<int>, len: nat) -> bool {
    &&& order.len() == len
    &&& forall|i: int| 0 <= i < len ==> 0 <= #[trigger] order[i] < len
    &&& order.no_duplicates()
}

/// The values in a given order.
pub open spec fn in_order<T>(values: Seq<T>, order: Seq<int>) -> Seq<T> {
    Seq::new(values.len(), |i: int| values[order[i]])
}

/// `SeedableRng::from_seed` of `XorShiftRng`: the generator starts from the seed's words. It
/// panics on a seed of zeros.
#[verifier::external_body]
pub(crate) fn seeded(seed: [u32; 4]) -> (r: XorShiftRng)
    requires
        seed@ != seq![0u32, 0, 0, 0],
    ensures
        generator_words(r) == seed@,
{
    XorShiftRng::from_seed(seed)
}

/// `Rng::shuffle`: the values change places, in an order that the generator's words, the number of
/// values and the width of a `usize` determine. Fewer than two values draw nothing.
#[verifier::external_body]
pub(crate) fn shuffle<T>(rng: &mut XorShiftRng, values: &mut Vec<T>)
    ensures
        is_order(
            shuffle_outcome(
                generator_words(*old(rng)),
                old(values)@.len(),
                usize::BITS as nat,
            ).0,
            final(values)@.len(),
        ),
        final(values)@ == in_order(
            old(values)@,
            shuffle_outcome(
                generator_words(*old(rng)),
                old(values)@.len(),
                usize::BITS as nat,
            ).0,
        ),
        generator_words(*final(rng)) == shuffle_outcome(
            generator_words(*old(rng)),
            old(values)@.len(),
            usize::BITS as nat,
        ).1,
        old(values)@.len() < 2 ==> generator_words(*final(rng)) == generator_words(*old(rng)),
{
    rng.shuffle(values)
}

/// `Rng::gen_weighted_bool`: a choice that the generator's words determine, true in one of `n`
/// cases.
#[verifier::external_body]
pub(crate) fn weighted_bool(rng: &mut XorShiftRng, n: u32) -> (r: bool)
    ensures
        r == weighted_bool_outcome(generator_words(*old(rng)), n).0,
        generator_words(*final(rng)) == weighted_bool_outcome(generator_words(*old(rng)), n).1,
        n <= 1 ==> r && generator_words(*final(rng)) == generator_words(*old(rng)),
{
    rng.gen_weighted_bool(n)
}

} // verus!
