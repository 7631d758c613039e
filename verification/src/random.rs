//! The stream of random numbers of a run, and drawing a variant by weight.
use vstd::prelude::*;
use rand_chacha::ChaCha8Rng;

verus! {

#[verifier::external_type_specification]
#[verifier::external_body]
pub struct ExChaCha8Rng(ChaCha8Rng);

/// The words that make up a generator: its key, its counter, and the block of output that
/// it holds with its place in that block.
pub uninterp spec fn generator_state(rng: ChaCha8Rng) -> Seq<u32>;

/// The words that make up the generator that is made from a seed.
pub uninterp spec fn seeded_state(seed: u64) -> Seq<u32>;

/// The 64-bit word that a generator made up of `state` yields next, and the words that make
/// up the generator afterwards.
pub uninterp spec fn next_word_of(state: Seq<u32>) -> (u64, Seq<u32>);

/// `ChaCha8Rng::seed_from_u64` of `rand_chacha`, through `rand`'s `SeedableRng`: a generator
/// with eight rounds whose key is expanded from the seed. Believed: the generator is made
/// up of the seed alone.
#[verifier::external_body]
pub(crate) fn seeded(seed: u64) -> (rng: ChaCha8Rng)
    ensures
        generator_state(rng) == seeded_state(seed),
{
    rand::SeedableRng::seed_from_u64(seed)
}

/// `ChaCha8Rng::next_u64` of `rand_chacha`, through `rand`'s `RngCore`. Believed: the word
/// and what the generator is made up of afterwards depend on nothing but what the generator
/// was made up of.
#[verifier::external_body]
pub(crate) fn next_word(rng: &mut ChaCha8Rng) -> (word: u64)
    ensures
        word == next_word_of(generator_state(*old(rng))).0,
        generator_state(*final(rng)) == next_word_of(generator_state(*old(rng))).1,
{
    rand::RngCore::next_u64(rng)
}

/// The number of equally likely values of a unit draw.
pub const UNIT: u64 = 0x20_0000_0000_0000;

/// The unit draw that a word gives: its upper 53 bits. Divided by `UNIT` it is a number
/// from 0 up to but not including 1.
pub open spec fn spec_unit(word: u64) -> int {
    word as int / 2048
}

/// The unit draw that a generator made up of `state` yields next.
pub open spec fn spec_draw(state: Seq<u32>) -> int {
    spec_unit(next_word_of(state).0)
}

/// What a generator made up of `state` is made up of after one draw.
pub open spec fn spec_drawn(state: Seq<u32>) -> Seq<u32> {
    next_word_of(state).1
}

/// Draws a number from 0 up to but not including `UNIT`, uniformly.
pub fn draw(rng: &mut ChaCha8Rng) -> (r: u64)
    ensures
        r == spec_draw(generator_state(*old(rng))),
        r < UNIT,
        generator_state(*final(rng)) == spec_drawn(generator_state(*old(rng))),
{
    next_word(rng) / 2048
}

/// The sum of the first `n` weights.
pub open spec fn spec_prefix(weights: Seq<u32>, n: int) -> int
    decreases n,
{
    if n <= 0 {
        0
    } else {
        spec_prefix(weights, n - 1) + weights[n - 1]
    }
}

/// Whether the weights up to and including index `k` make up at least the share `r / UNIT`
/// of all weights.
pub open spec fn reaches(weights: Seq<u32>, r: int, k: int) -> bool {
    spec_prefix(weights, k + 1) * UNIT >= r * spec_prefix(weights, weights.len() as int)
}

/// The first index at or after `k` at which the share is reached, and 0 if there is none.
pub open spec fn spec_first_reaching(weights: Seq<u32>, r: int, k: int) -> int
    decreases weights.len() - k,
{
    if k >= weights.len() {
        0
    } else if reaches(weights, r, k) {
        k
    } else {
        spec_first_reaching(weights, r, k + 1)
    }
}

/// The index that the unit draw `r` picks from `weights`: the least index at which the
/// running sum of the weights reaches the share `r / UNIT` of their total, and 0 if there
/// is no such index.
pub open spec fn spec_random_from_distr(weights: Seq<u32>, r: int) -> int {
    spec_first_reaching(weights, r, 0)
}

/// A sum of weights grows with the number of weights.
pub proof fn lemma_prefix_grows(weights: Seq<u32>, a: int, b: int)
    requires
        0 <= a <= b,
    ensures
        0 <= spec_prefix(weights, a) <= spec_prefix(weights, b) <= b * u32::MAX,
    decreases b,
{
    if a < b {
        lemma_prefix_grows(weights, a, b - 1);
        assert((b - 1) * u32::MAX + u32::MAX == b * u32::MAX) by (nonlinear_arith);
    } else if a > 0 {
        lemma_prefix_grows(weights, a - 1, a - 1);
        assert((a - 1) * u32::MAX + u32::MAX == a * u32::MAX) by (nonlinear_arith);
    }
}

/// The picked index is the least at which the share is reached: it is an index of the
/// weights unless there are none, no earlier index reaches the share, and a draw below
/// `UNIT` always finds one.
pub proof fn lemma_pick_is_least(weights: Seq<u32>, r: int, k: int)
    requires
        0 <= k <= weights.len(),
        0 <= r,
    ensures
        ({
            let pick = spec_first_reaching(weights, r, k);
            let found = k <= pick < weights.len() && reaches(weights, r, pick);
            &&& found ==> forall|j: int| k <= j < pick ==> !reaches(weights, r, j)
            &&& !found ==> pick == 0 && forall|j: int| k <= j < weights.len() ==> !reaches(weights, r, j)
            &&& k < weights.len() && r <= UNIT ==> found
        }),
    decreases weights.len() - k,
{
    let n = weights.len() as int;
    if k < n {
        if !reaches(weights, r, k) {
            lemma_pick_is_least(weights, r, k + 1);
            if r <= UNIT {
                lemma_prefix_grows(weights, n, n);
                if k + 1 == n {
                    let total = spec_prefix(weights, n);
                    assert(total * UNIT >= r * total) by (nonlinear_arith)
                        requires
                            0 <= r <= UNIT,
                            0 <= total,
                    ;
                }
            }
        }
    }
}

/// Picks an index by weight with the unit draw `r`.
pub fn random_from_distr(weights: &Vec<u32>, r: u64) -> (pick: usize)
    requires
        weights.len() <= u32::MAX,
    ensures
        pick == spec_random_from_distr(weights@, r as int),
        pick == 0 || pick < weights.len(),
{
    let n = weights.len();
    let mut sum: u64 = 0;
    let mut i: usize = 0;
    while i < n
        invariant
            i <= n,
            n == weights.len(),
            n <= u32::MAX,
            sum == spec_prefix(weights@, i as int),
            sum <= i * u32::MAX,
        decreases n - i,
    {
        assert((i + 1) * u32::MAX == i * u32::MAX + u32::MAX <= u32::MAX * u32::MAX)
            by (nonlinear_arith)
            requires
                i < n <= u32::MAX,
        ;
        sum = sum + weights[i] as u64;
        i = i + 1;
    }
    assert(r * sum <= u64::MAX * u64::MAX) by (nonlinear_arith)
        requires
            0 <= r <= u64::MAX,
            0 <= sum <= u64::MAX,
    ;
    let threshold: u128 = (r as u128) * (sum as u128);
    let mut partial_sum: u64 = 0;
    let mut k: usize = 0;
    while k < n
        invariant
            k <= n,
            n == weights.len(),
            n <= u32::MAX,
            sum == spec_prefix(weights@, n as int),
            threshold == r * sum,
            partial_sum == spec_prefix(weights@, k as int),
            partial_sum <= k * u32::MAX,
            spec_random_from_distr(weights@, r as int) == spec_first_reaching(
                weights@,
                r as int,
                k as int,
            ),
        decreases n - k,
    {
        assert((k + 1) * u32::MAX == k * u32::MAX + u32::MAX <= u32::MAX * u32::MAX)
            by (nonlinear_arith)
            requires
                k < n <= u32::MAX,
        ;
        partial_sum = partial_sum + weights[k] as u64;
        assert(partial_sum * UNIT <= u64::MAX * UNIT) by (nonlinear_arith)
            requires
                0 <= partial_sum <= u64::MAX,
        ;
        if (partial_sum as u128) * (UNIT as u128) >= threshold {
            proof {
                lemma_pick_is_least(weights@, r as int, k as int);
            }
            return k;
        }
        k = k + 1;
    }
    0
}

} // verus!
