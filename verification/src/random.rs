//! Random choices.
use vstd::prelude::*;
use rand::seq::SliceRandom;
use rand::Rng;
use rand::SeedableRng;

verus! {

#[verifier::external_type_specification]
#[verifier::external_body]
pub struct ExStdRng(rand::rngs::StdRng);

/// The source of randomness that `rand::SeedableRng::seed_from_u64` makes of a seed, for `StdRng`.
pub uninterp spec fn seeded_state(seed: u64) -> rand::rngs::StdRng;

/// `rand::SeedableRng::seed_from_u64`, for `StdRng`: what it makes depends on the seed alone. Nothing is
/// claimed of what that will draw.
#[verifier::external_body]
pub(crate) fn seeded(seed: u64) -> (r: rand::rngs::StdRng)
    ensures
        r == seeded_state(seed),
{
    rand::rngs::StdRng::seed_from_u64(seed)
}

/// The source that `rand::SeedableRng::from_rng` makes of another one, for `StdRng`, and that other one
/// after it.
pub uninterp spec fn fork_draw(rng: rand::rngs::StdRng) -> (
    rand::rngs::StdRng,
    rand::rngs::StdRng,
);

/// `rand::SeedableRng::from_rng`, for `StdRng`, which does not fail on such a source: it fills a seed
/// with what that draws, so that both depend on its state alone. Nothing is claimed of what they will
/// draw.
#[verifier::external_body]
pub(crate) fn fork_rng(rng: &mut rand::rngs::StdRng) -> (r: rand::rngs::StdRng)
    ensures
        (r, *final(rng)) == fork_draw(*old(rng)),
{
    rand::rngs::StdRng::from_rng(rng).unwrap()
}

/// Where `rand::seq::SliceRandom::shuffle` takes the elements of a list of some length from, drawn from a
/// source, and the source after that.
pub uninterp spec fn shuffle_draw(rng: rand::rngs::StdRng, len: nat) -> (
    Seq<int>,
    rand::rngs::StdRng,
);

/// List `r` holds element `from[i]` of list `s` at position `i`, and each element of it once.
pub open spec fn is_permuted<T>(s: Seq<T>, from: Seq<int>, r: Seq<T>) -> bool {
    &&& r.len() == s.len()
    &&& from.len() == s.len()
    &&& from.no_duplicates()
    &&& forall|i: int| 0 <= i < r.len() ==> 0 <= #[trigger] from[i] < s.len() && r[i] == s[from[i]]
}

/// `rand::seq::SliceRandom::shuffle`: swaps the elements of a list, so that it holds the same ones in
/// some order. The order depends on the state of the source and on the length of the list alone.
#[verifier::external_body]
pub(crate) fn shuffle<T>(list: &mut Vec<T>, rng: &mut rand::rngs::StdRng)
    ensures
        final(list)@.to_multiset() == old(list)@.to_multiset(),
        is_permuted(
            old(list)@,
            shuffle_draw(*old(rng), old(list)@.len()).0,
            final(list)@,
        ),
        *final(rng) == shuffle_draw(*old(rng), old(list)@.len()).1,
{
    list.shuffle(rng);
}

/// The position that `rand::seq::SliceRandom::choose` draws from a source, for a list of some length that
/// is not empty, and the source after that.
pub uninterp spec fn pick_draw(rng: rand::rngs::StdRng, len: nat) -> (int, rand::rngs::StdRng);

/// `rand::seq::SliceRandom::choose`: some element of a list, or `None` if the list is empty. The position
/// depends on the state of the source and on the length of the list alone. Nothing is drawn for an empty
/// list.
#[verifier::external_body]
pub(crate) fn pick_one(list: &Vec<u32>, rng: &mut rand::rngs::StdRng) -> (r: Option<u32>)
    ensures
        match r {
            Some(x) => {
                let (i, after) = pick_draw(*old(rng), list@.len());
                &&& 0 <= i < list@.len()
                &&& x == list@[i]
                &&& *final(rng) == after
            },
            None => list@.len() == 0 && *final(rng) == *old(rng),
        },
{
    list.choose(rng).copied()
}

/// What `rand::Rng::gen_range` draws from a source, for the numbers from `low` up to `high`, and the source
/// after that.
pub uninterp spec fn range_draw(
    rng: rand::rngs::StdRng,
    low: u64,
    high: u64,
) -> (u64, rand::rngs::StdRng);

/// `rand::Rng::gen_range` on an inclusive range, which panics if the range is empty: some number from
/// `low` up to `high`. It depends on the state of the source and on the range alone.
#[verifier::external_body]
pub(crate) fn gen_range(rng: &mut rand::rngs::StdRng, low: u64, high: u64) -> (r: u64)
    requires
        low <= high,
    ensures
        low <= r <= high,
        (r, *final(rng)) == range_draw(*old(rng), low, high),
{
    rng.gen_range(low..=high)
}

/// `rand::thread_rng` and `rand::Rng::gen_range`: some number from `low` up to `high`, drawn by the
/// generator of the thread.
#[verifier::external_body]
pub(crate) fn thread_range(low: i64, high: i64) -> (r: i64)
    requires
        low <= high,
    ensures
        low <= r <= high,
{
    rand::thread_rng().gen_range(low..=high)
}

/// What `rand::Rng::gen_ratio` draws from a source, and the source after that.
pub uninterp spec fn ratio_draw(
    rng: rand::rngs::StdRng,
    numerator: u32,
    denominator: u32,
) -> (bool, rand::rngs::StdRng);

/// `rand::Rng::gen_ratio`, which panics if `denominator` is 0 or `numerator` is larger: true with a
/// probability of `numerator / denominator`, so always true if they are equal, and never if
/// `numerator` is 0. What is drawn depends on the state of the source and on the two numbers alone.
#[verifier::external_body]
pub(crate) fn gen_ratio(rng: &mut rand::rngs::StdRng, numerator: u32, denominator: u32) -> (r: bool)
    requires
        0 < denominator,
        numerator <= denominator,
    ensures
        numerator == denominator ==> r,
        numerator == 0 ==> !r,
        (r, *final(rng)) == ratio_draw(*old(rng), numerator, denominator),
{
    rng.gen_ratio(numerator, denominator)
}

} // verus!
