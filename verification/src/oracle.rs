//! The training oracle's deterministic side: synthetic premises.
//!
//! The oracle's numeric duties — measuring geometric loss and solving for
//! ideal updates — live in the numeric kernel outside this core. What
//! belongs here is the part every node must agree on: the entropy stream a
//! synthetic premise is generated from.

use vstd::prelude::*;
use crate::init::{lcg_stream, lcg_word};

verus! {

/// Generates training tasks and judges logical consistency; the numeric
/// judgments live in the numeric kernel.
pub struct LogicOracle;

impl LogicOracle {
    /// The word stream behind a synthetic premise of the given dimension:
    /// position `i` holds `lcg_word(seed, i)`. The numeric kernel maps each
    /// word into a coordinate of a random unit-cube point.
    pub fn premise_words(seed: u64, dim: usize) -> (r: Vec<u64>)
        ensures
            r@.len() == dim,
            forall|i: int| 0 <= i < dim ==> #[trigger] r@[i] == lcg_word(seed, i as nat),
    {
        lcg_stream(seed, dim)
    }
}

} // verus!
