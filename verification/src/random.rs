//! The random sources: the thread-local generator for the search, and the
//! seeded generator that makes a network's first weights reproducible.
use rand::seq::SliceRandom;
use rand::Rng;
use rand::SeedableRng;
use vstd::prelude::*;
use crate::scalar::Scalar;

verus! {

/// The number of different values of a uniform unit sample: `2^53`.
pub const UNIT_STEPS: u64 = 9007199254740992;

/// Half of [`UNIT_STEPS`]: `2^52`.
pub const HALF_STEPS: i64 = 4503599627370496;

/// The unused low bits of a generated word, as a divisor: `2^11`.
pub const WORD_DIVISOR: u64 = 2048;

/// The first `count` 64-bit words that the standard generator of the `rand`
/// crate, in the version that this crate is built with, yields after it has
/// been seeded with `seed`.
pub uninterp spec fn seeded_stream(seed: u64, count: nat) -> Seq<u64>;

/// Calls `rand::rngs::StdRng::seed_from_u64` and draws `count` words from the
/// generator through `rand::Rng::sample_iter` with the `Standard`
/// distribution. The generator is deterministic, so the words are a function of
/// the seed and the count; the contract names them and states how many there
/// are.
#[verifier::external_body]
pub(crate) fn seeded_words(seed: u64, count: usize) -> (r: Vec<u64>)
    ensures
        r@ == seeded_stream(seed, count as nat),
        r@.len() == count,
{
    rand::rngs::StdRng::seed_from_u64(seed).sample_iter(rand::distributions::Standard).take(
        count,
    ).collect()
}

/// The thread-local generator of the `rand` crate. A value of it is a handle
/// that is carried to the draws; nothing is said of what it holds.
#[verifier::external_type_specification]
#[verifier::external_body]
pub struct ExThreadRng(rand::rngs::ThreadRng);

/// Calls `rand::thread_rng`, which hands out the generator of the current
/// thread.
#[verifier::external_body]
pub(crate) fn thread_generator() -> rand::rngs::ThreadRng {
    rand::thread_rng()
}

/// Calls `rand::Rng::gen_range` on the generator with the range from 0 up
/// to, not including, `bound`. The result lies in that range; `gen_range`
/// panics on an empty range, which the precondition leaves out.
#[verifier::external_body]
pub(crate) fn draw_below(generator: &mut rand::rngs::ThreadRng, bound: u64) -> (r: u64)
    requires
        bound > 0,
    ensures
        r < bound,
{
    generator.gen_range(0..bound)
}

/// Calls `rand::seq::SliceRandom::shuffle` on the vector with the generator.
/// The shuffle only swaps elements, so the vector holds afterwards what it
/// held before, in some order.
#[verifier::external_body]
pub(crate) fn shuffle(order: &mut Vec<usize>, generator: &mut rand::rngs::ThreadRng)
    ensures
        final(order)@.to_multiset() == old(order)@.to_multiset(),
{
    order.shuffle(generator);
}

/// Draws an integer uniformly from those below `bound`.
pub fn random_below(bound: u64) -> (r: u64)
    requires
        bound > 0,
    ensures
        r < bound,
{
    let mut generator = thread_generator();
    draw_below(&mut generator, bound)
}

/// The scalar in `[-1, 1)` that the top 53 bits of `word` stand for.
pub open spec fn spec_signed_unit<T: Scalar>(word: u64) -> T {
    T::spec_from_ratio(((word / WORD_DIVISOR) as i64 - HALF_STEPS) as i64, HALF_STEPS)
}

/// The scalar in `[0, 1)` that is `step` steps of `2^-53` above zero.
pub open spec fn spec_unit<T: Scalar>(step: u64) -> T {
    T::spec_from_ratio(step as i64, UNIT_STEPS as i64)
}

/// Turns a generated word into a scalar in `[-1, 1)`.
pub fn signed_unit<T: Scalar>(word: u64) -> (r: T)
    ensures
        r == spec_signed_unit::<T>(word),
{
    let step: u64 = word / WORD_DIVISOR;
    T::from_ratio(step as i64 - HALF_STEPS, HALF_STEPS)
}

/// `r` is one of the scalars that a uniform draw from `[0, 1)` can give.
pub open spec fn is_unit<T: Scalar>(r: T) -> bool {
    exists|step: u64| step < UNIT_STEPS && r == #[trigger] spec_unit::<T>(step)
}

/// Draws a scalar uniformly from `[0, 1)`, in steps of `2^-53`.
pub fn random_unit<T: Scalar>() -> (r: T)
    ensures
        is_unit(r),
{
    let step = random_below(UNIT_STEPS);
    let r = T::from_ratio(step as i64, UNIT_STEPS as i64);
    assert(r == spec_unit::<T>(step));
    r
}

/// Draws an integer uniformly from `low` up to, not including, `high`.
pub fn random_range(low: i32, high: i32) -> (r: i32)
    requires
        low < high,
    ensures
        low <= r < high,
{
    let width: u64 = (high as i64 - low as i64) as u64;
    let offset = random_below(width);
    place_in_range(low, high, offset)
}

/// Draws an index uniformly from those below `len`.
pub fn random_index(len: usize) -> (r: usize)
    requires
        len > 0,
    ensures
        r < len,
{
    random_below(len as u64) as usize
}

/// The integer that lies `offset` above `low`, for an offset that stays below
/// `high`: what a draw of `offset` from the width of the range stands for.
pub fn place_in_range(low: i32, high: i32, offset: u64) -> (r: i32)
    requires
        low < high,
        offset < high - low,
    ensures
        r == low + offset,
{
    (low as i64 + offset as i64) as i32
}

/// The indices below `count`, each once, in a random order.
pub fn shuffled_order(count: usize) -> (r: Vec<usize>)
    ensures
        r@.len() == count,
        forall|k: int| 0 <= k < count ==> #[trigger] r@[k] < count,
        forall|index: usize| index < count ==> r@.to_multiset().count(index) == 1,
{
    let mut order: Vec<usize> = Vec::new();
    let mut next: usize = 0;
    while next < count
        invariant
            next <= count,
            order@.len() == next,
            forall|k: int| 0 <= k < next ==> order@[k] == k,
        decreases count - next,
    {
        order.push(next);
        next = next + 1;
    }
    let ghost before = order@;
    let mut generator = thread_generator();
    shuffle(&mut order, &mut generator);
    proof {
        broadcast use vstd::seq_lib::group_to_multiset_ensures;
        assert(order@.len() == count) by {
            assert(order@.to_multiset().len() == order@.len());
            assert(before.to_multiset().len() == before.len());
        }
        assert forall|k: int| 0 <= k < count implies #[trigger] order@[k] < count by {
            assert(order@.to_multiset().count(order@[k]) > 0);
            assert(before.to_multiset().count(order@[k]) > 0);
            assert(before.contains(order@[k]));
        }
        assert forall|index: usize| index < count implies order@.to_multiset().count(index) == 1 by {
            lemma_identity_counts(before, index);
        }
    }
    order
}

/// In the sequence `0, 1, .., n - 1` every index below `n` occurs once.
proof fn lemma_identity_counts(s: Seq<usize>, index: usize)
    requires
        forall|k: int| 0 <= k < s.len() ==> s[k] == k,
        index < s.len(),
    ensures
        s.to_multiset().count(index) == 1,
    decreases s.len(),
{
    broadcast use vstd::seq_lib::group_to_multiset_ensures;
    let shorter = s.drop_last();
    assert(s =~= shorter.push(s.last()));
    if index == s.len() - 1 {
        assert(!shorter.contains(index)) by {
            if shorter.contains(index) {
                let k = choose|k: int| 0 <= k < shorter.len() && shorter[k] == index;
                assert(s[k] == k);
            }
        }
        assert(shorter.to_multiset().count(index) == 0);
    } else {
        lemma_identity_counts(shorter, index);
    }
}

} // verus!
