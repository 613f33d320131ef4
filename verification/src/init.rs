//! Deterministic entropy streams for embeddings and weight initialization.
//!
//! Tokens and weights are seeded from fixed mixing functions of their ids,
//! never from ambient randomness, so every node materializes the identical
//! values with no coordination. This module produces the raw 64-bit word
//! streams; mapping words onto the numeric range a model wants is the
//! numeric kernel's business.

use vstd::prelude::*;
use vstd::wrapping::u64_specs;

verus! {

/// The state of the token mixer after `i + 1` increments of the seed.
pub open spec fn mix_state(seed: u64, i: nat) -> u64
    decreases i,
{
    if i == 0 {
        u64_specs::wrapping_add(seed, 0x9e3779b97f4a7c15)
    } else {
        u64_specs::wrapping_add(mix_state(seed, (i - 1) as nat), 0x9e3779b97f4a7c15)
    }
}

/// The output mixing of one state word: xor-shift and multiply rounds that
/// spread every input bit across the word.
pub open spec fn mix_output(z0: u64) -> u64 {
    let z1 = u64_specs::wrapping_mul(z0 ^ (z0 >> 30u64), 0xbf58476d1ce4e5b9);
    let z2 = u64_specs::wrapping_mul(z1 ^ (z1 >> 27u64), 0x94d049bb133111eb);
    z2 ^ (z2 >> 31u64)
}

/// The `i`-th word a token embeds to.
pub open spec fn token_word(token_id: u32, i: nat) -> u64 {
    mix_output(mix_state(token_id as u64, i))
}

/// The multiplicative congruential step behind weight initialization.
pub open spec fn lcg_step(state: u64) -> u64 {
    u64_specs::wrapping_add(u64_specs::wrapping_mul(state, 6364136223846793005), 1)
}

/// The `i`-th word of the congruential stream seeded with `seed`.
pub open spec fn lcg_word(seed: u64, i: nat) -> u64
    decreases i,
{
    if i == 0 {
        lcg_step(seed)
    } else {
        lcg_step(lcg_word(seed, (i - 1) as nat))
    }
}

/// Computes the congruential word stream of a seed.
pub fn lcg_stream(seed: u64, count: usize) -> (r: Vec<u64>)
    ensures
        r@.len() == count,
        forall|i: int| 0 <= i < count ==> #[trigger] r@[i] == lcg_word(seed, i as nat),
{
    let mut r: Vec<u64> = Vec::new();
    let mut state: u64 = seed;
    let mut i: usize = 0;
    while i < count
        invariant
            0 <= i <= count,
            r@.len() == i,
            forall|j: int| 0 <= j < i ==> #[trigger] r@[j] == lcg_word(seed, j as nat),
            i == 0 ==> state == seed,
            i > 0 ==> state == lcg_word(seed, (i - 1) as nat),
        decreases count - i,
    {
        state = state.wrapping_mul(6364136223846793005).wrapping_add(1);
        r.push(state);
        i = i + 1;
    }
    r
}

/// Maps discrete tokens onto the manifold deterministically: the same token
/// id yields the same coordinates on every node, with no lookup table.
pub struct ConceptEmbedder;

impl ConceptEmbedder {
    /// The word stream a token embeds to; position `i` holds
    /// `token_word(token_id, i)`. The numeric kernel squashes each word into
    /// its coordinate range and normalizes the result.
    pub fn embed_token_words(token_id: u32, dim: usize) -> (r: Vec<u64>)
        ensures
            r@.len() == dim,
            forall|i: int| 0 <= i < dim ==> #[trigger] r@[i] == token_word(token_id, i as nat),
    {
        let mut r: Vec<u64> = Vec::new();
        let mut state: u64 = token_id as u64;
        let mut i: usize = 0;
        while i < dim
            invariant
                0 <= i <= dim,
                r@.len() == i,
                forall|j: int|
                    0 <= j < i ==> #[trigger] r@[j] == token_word(token_id, j as nat),
                i == 0 ==> state == token_id as u64,
                i > 0 ==> state == mix_state(token_id as u64, (i - 1) as nat),
            decreases dim - i,
        {
            state = state.wrapping_add(0x9e3779b97f4a7c15);
            let z0 = state;
            let z1 = (z0 ^ (z0 >> 30)).wrapping_mul(0xbf58476d1ce4e5b9);
            let z2 = (z1 ^ (z1 >> 27)).wrapping_mul(0x94d049bb133111eb);
            let word = z2 ^ (z2 >> 31);
            proof {
                assert(word == mix_output(mix_state(token_id as u64, i as nat)));
            }
            r.push(word);
            i = i + 1;
        }
        r
    }
}

/// Seeds network weights deterministically from a congruential stream, so a
/// layer initialized from the same seed is identical everywhere.
pub struct WeightInitializer;

impl WeightInitializer {
    /// The word stream behind a `rows x cols` weight matrix, row-major;
    /// entry `i` holds `lcg_word(seed, i)`. The numeric kernel maps each
    /// word into the symmetric range its fan-in calls for.
    pub fn init_matrix_words(rows: usize, cols: usize, seed: u64) -> (r: Vec<u64>)
        requires
            rows * cols <= usize::MAX,
        ensures
            r@.len() == rows * cols,
            forall|i: int|
                0 <= i < r@.len() ==> #[trigger] r@[i] == lcg_word(seed, i as nat),
    {
        lcg_stream(seed, rows * cols)
    }
}

} // verus!
