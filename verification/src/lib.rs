//! Coordination core for decentralized tree-shaped gradient aggregation.
//!
//! Compute nodes discover each other over a gossip protocol, derive a
//! deterministic aggregation topology from the shared peer snapshot, and merge
//! per-layer gradient contributions into one epoch-scoped weighted average.
//! Correctness never depends on message order, arrival timing, or which
//! subtree reduces first; the proofs in this crate pin that down.

use vstd::prelude::*;
use vstd::string::StringSliceAdditionalSpecFns;

pub mod affine;
pub mod discovery;
pub mod folding;
pub mod init;
pub mod merkle;
pub mod tensor;
pub mod node;
pub mod oracle;
pub mod sync;
pub mod wrap;

verus! {

/// Wrapped byte-sum digest of a node id, the basis of rendezvous sharding:
/// every node holding the same peer snapshot assigns workers to parameter
/// servers identically, with no negotiation.
pub open spec fn id_hash(bytes: Seq<u8>) -> u64
    decreases bytes.len(),
{
    if bytes.len() == 0 {
        0u64
    } else {
        vstd::wrapping::u64_specs::wrapping_add(id_hash(bytes.drop_last()), bytes.last() as u64)
    }
}

/// Digest of a node id: the bytes are summed with wrap-around, as every peer
/// computes it when it places itself under a parameter server.
pub fn hash_id(id: &str) -> (h: u64)
    ensures
        h == id_hash(id.spec_bytes()),
{
    let bytes = id.as_bytes();
    let mut h: u64 = 0;
    let mut i: usize = 0;
    while i < bytes.len()
        invariant
            0 <= i <= bytes.len(),
            bytes@ == id.spec_bytes(),
            h == id_hash(bytes@.subrange(0, i as int)),
        decreases bytes.len() - i,
    {
        proof {
            assert(bytes@.subrange(0, i + 1 as int).drop_last() =~= bytes@.subrange(0, i as int));
            assert(bytes@.subrange(0, i + 1 as int).last() == bytes@[i as int]);
        }
        h = h.wrapping_add(bytes[i] as u64);
        i = i + 1;
    }
    proof {
        assert(bytes@.subrange(0, bytes@.len() as int) =~= bytes@);
    }
    h
}

} // verus!
