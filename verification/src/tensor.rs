//! The folded view of a whole input sequence: its equivalent single
//! transformation, optionally with the tape that produced it.
//!
//! Training mode folds pairwise, level by level, recording every step on the
//! tape; inference mode folds without bookkeeping. Because composition is
//! associative, the level-by-level pairing computes exactly the same causal
//! chain as a straight left-to-right fold — that equality is proved here,
//! which is what licenses folding independent chunks in parallel.

use vstd::prelude::*;
use crate::affine::{
    compose_value, identity_value, AffineTuple, AffineValue, lemma_compose_associative,
};
use crate::folding::{chain_fold, uniform_dim, values_of, HyperFolder};
use crate::merkle::CausalTrace;

verus! {

/// One level of pairwise reduction: neighbors are composed in order and an
/// odd trailing element is carried over.
pub open spec fn pair_round(s: Seq<AffineValue>) -> Seq<AffineValue> {
    Seq::new(
        (s.len() + 1) as nat / 2,
        |k: int| if 2 * k + 1 < s.len() {
            compose_value(s[2 * k + 1], s[2 * k])
        } else {
            s[2 * k]
        },
    )
}

/// A causal chain stays in the dimension of its units.
pub proof fn lemma_chain_fold_dim(s: Seq<AffineValue>, d: nat)
    requires
        s.len() > 0,
        uniform_dim(s, d),
    ensures
        chain_fold(s).dim() == d,
    decreases s.len(),
{
    if s.len() > 1 {
        assert(uniform_dim(s.drop_last(), d)) by {
            assert(forall|i: int| 0 <= i < s.len() - 1 ==> (#[trigger] s.drop_last()[i]) == s[i]);
        }
        lemma_chain_fold_dim(s.drop_last(), d);
    }
}

/// Folding a concatenated timeline composes the two partial chains: the
/// later chunk's chain is applied after the earlier chunk's chain.
pub proof fn lemma_chain_fold_concat(s1: Seq<AffineValue>, s2: Seq<AffineValue>, d: nat)
    requires
        s1.len() > 0,
        s2.len() > 0,
        uniform_dim(s1, d),
        uniform_dim(s2, d),
    ensures
        chain_fold(s1 + s2) == compose_value(chain_fold(s2), chain_fold(s1)),
    decreases s2.len(),
{
    if s2.len() == 1 {
        assert((s1 + s2).drop_last() =~= s1);
        assert((s1 + s2).last() == s2[0]);
        assert(chain_fold(s2) == s2[0]);
    } else {
        assert(uniform_dim(s2.drop_last(), d)) by {
            assert(forall|i: int|
                0 <= i < s2.len() - 1 ==> (#[trigger] s2.drop_last()[i]) == s2[i]);
        }
        lemma_chain_fold_concat(s1, s2.drop_last(), d);
        assert((s1 + s2).drop_last() =~= s1 + s2.drop_last());
        assert((s1 + s2).last() == s2.last());
        lemma_chain_fold_dim(s1, d);
        lemma_chain_fold_dim(s2.drop_last(), d);
        lemma_compose_associative(s2.last(), chain_fold(s2.drop_last()), chain_fold(s1));
    }
}

/// One pairwise level preserves the causal chain: any balanced
/// parenthesization that keeps relative order folds to the identical unit.
pub proof fn lemma_pair_round_chain(s: Seq<AffineValue>, d: nat)
    requires
        s.len() > 0,
        uniform_dim(s, d),
    ensures
        pair_round(s).len() == (s.len() + 1) as nat / 2,
        uniform_dim(pair_round(s), d),
        chain_fold(pair_round(s)) == chain_fold(s),
    decreases s.len(),
{
    let pr = pair_round(s);
    assert forall|k: int| 0 <= k < pr.len() implies (#[trigger] pr[k]).dim() == d by {
        if 2 * k + 1 < s.len() {
            assert(s[2 * k].dim() == d);
        } else {
            assert(s[2 * k].dim() == d);
        }
    }
    if s.len() == 1 {
        assert(pr =~= s);
    } else if s.len() == 2 {
        assert(pr =~= seq![compose_value(s[1], s[0])]);
        assert(s.drop_last() =~= seq![s[0]]);
        assert(chain_fold(s.drop_last()) == s[0]);
        assert(chain_fold(s) == compose_value(s[1], s[0]));
        assert(chain_fold(pr) == pr[0]);
    } else {
        let rest = s.skip(2);
        let front = seq![compose_value(s[1], s[0])];
        assert(uniform_dim(rest, d)) by {
            assert(forall|i: int| 0 <= i < rest.len() ==> (#[trigger] rest[i]) == s[i + 2]);
        }
        assert(pr =~= front + pair_round(rest)) by {
            assert(pr.len() == 1 + pair_round(rest).len());
            assert forall|k: int| 0 <= k < pr.len() implies pr[k] == (front + pair_round(rest))[k] by {
                if k > 0 {
                    assert((front + pair_round(rest))[k] == pair_round(rest)[k - 1]);
                    assert(rest[2 * (k - 1)] == s[2 * k]);
                    if 2 * (k - 1) + 1 < rest.len() {
                        assert(rest[2 * (k - 1) + 1] == s[2 * k + 1]);
                    }
                }
            }
        }
        lemma_pair_round_chain(rest, d);
        assert(uniform_dim(front, d));
        lemma_chain_fold_concat(front, pair_round(rest), d);
        assert(chain_fold(pr) == compose_value(chain_fold(pair_round(rest)), chain_fold(front)));
        assert(chain_fold(front) == compose_value(s[1], s[0]));
        let head = seq![s[0], s[1]];
        assert(s =~= head + rest);
        assert(uniform_dim(head, d));
        lemma_chain_fold_concat(head, rest, d);
        assert(head.drop_last() =~= seq![s[0]]);
        assert(head.last() == s[1]);
        assert(chain_fold(head.drop_last()) == s[0]);
        assert(chain_fold(head) == compose_value(s[1], s[0]));
    }
}

/// A whole input sequence folded to its single equivalent transformation,
/// with the tape of how it was folded when training needs gradients.
pub struct HyperTensor {
    /// The folded result: the causal chain of the whole input.
    pub root: AffineTuple,
    /// The recorded reduction steps; present only in training mode.
    pub trace: Option<CausalTrace>,
}

impl HyperTensor {
    /// The no-op tensor: an identity root with nothing recorded.
    pub fn identity(dim: usize) -> (r: Self)
        ensures
            r.root@ == identity_value(dim as nat),
            r.trace is None,
    {
        HyperTensor { root: AffineTuple::identity(dim), trace: None }
    }

    /// Folds a sequence of input units into the single equivalent causal
    /// transformation. Training mode records every reduction step on a tape
    /// for the backward pass; inference mode folds without bookkeeping.
    /// An empty input folds to the zero-dimensional identity.
    pub fn forward(inputs: &[AffineTuple], training_mode: bool) -> (r: Self)
        requires
            forall|i: int|
                0 <= i < inputs@.len() ==> (#[trigger] inputs@[i])@.dim() == inputs@[0]@.dim(),
            inputs@.len() <= usize::MAX / 2,
        ensures
            inputs@.len() == 0 ==> r.root@ == identity_value(0) && r.trace is None,
            inputs@.len() > 0 ==> r.root@ == chain_fold(values_of(inputs@)),
            !training_mode ==> r.trace is None,
            training_mode && inputs@.len() > 0 ==> match r.trace {
                Some(t) => t.wf() && t.nodes@.len() == 2 * inputs@.len() - 1,
                None => false,
            },
    {
        if inputs.len() == 0 {
            return Self::identity(0);
        }
        if training_mode {
            Self::fold_with_trace(inputs)
        } else {
            Self::fold_fast(inputs)
        }
    }

    /// Inference-mode folding: the bare chain, no tape.
    fn fold_fast(inputs: &[AffineTuple]) -> (r: Self)
        requires
            inputs@.len() > 0,
            forall|i: int|
                0 <= i < inputs@.len() ==> (#[trigger] inputs@[i])@.dim() == inputs@[0]@.dim(),
        ensures
            r.root@ == chain_fold(values_of(inputs@)),
            r.trace is None,
    {
        let root = HyperFolder::fold_timeline(inputs).unwrap();
        HyperTensor { root, trace: None }
    }

    /// Training-mode folding: pairwise reduction level by level, every step
    /// recorded on the tape. The root is provably the same causal chain a
    /// straight sequential fold would produce.
    fn fold_with_trace(inputs: &[AffineTuple]) -> (r: Self)
        requires
            inputs@.len() > 0,
            inputs@.len() <= usize::MAX / 2,
            forall|i: int|
                0 <= i < inputs@.len() ==> (#[trigger] inputs@[i])@.dim() == inputs@[0]@.dim(),
        ensures
            r.root@ == chain_fold(values_of(inputs@)),
            match r.trace {
                Some(t) => t.wf() && t.nodes@.len() == 2 * inputs@.len() - 1,
                None => false,
            },
    {
        let n = inputs.len();
        let ghost d = inputs@[0]@.dim();
        let ghost target = chain_fold(values_of(inputs@));
        let mut trace = CausalTrace::new();
        let mut current: Vec<AffineTuple> = Vec::new();
        let mut ids: Vec<usize> = Vec::new();
        let mut i: usize = 0;
        while i < n
            invariant
                0 <= i <= n,
                n == inputs@.len(),
                n <= usize::MAX / 2,
                forall|j: int| 0 <= j < inputs@.len() ==> (#[trigger] inputs@[j])@.dim() == d,
                values_of(current@) =~= values_of(inputs@).subrange(0, i as int),
                ids@.len() == i,
                forall|j: int| 0 <= j < i ==> (#[trigger] ids@[j]) < trace.nodes@.len(),
                trace.wf(),
                trace.nodes@.len() == i,
            decreases n - i,
        {
            let ghost prev = current@;
            let item = inputs[i].clone();
            proof {
                assert(item@ == inputs@[i as int]@);
            }
            let id = trace.push_leaf(inputs[i].clone());
            ids.push(id);
            current.push(item);
            i = i + 1;
            proof {
                assert(values_of(prev) =~= values_of(inputs@).subrange(0, i - 1));
                assert(prev.len() == i - 1);
                assert(current@.len() == i as int);
                assert forall|idx: int| 0 <= idx < i as int implies values_of(current@)[idx]
                    == values_of(inputs@).subrange(0, i as int)[idx] by {
                    assert(values_of(current@)[idx] == current@[idx]@);
                    if idx < i - 1 {
                        assert(current@[idx] == prev[idx]);
                        assert(values_of(prev)[idx] == prev[idx]@);
                        assert(values_of(prev)[idx] == values_of(inputs@).subrange(0, i - 1)[idx]);
                    } else {
                        assert(current@[idx] == item);
                        assert(item@ == values_of(inputs@)[idx]);
                    }
                    assert(values_of(inputs@).subrange(0, i as int)[idx] == values_of(
                        inputs@,
                    )[idx]);
                }
                assert(values_of(current@) =~= values_of(inputs@).subrange(0, i as int));
            }
        }
        proof {
            assert(values_of(inputs@).subrange(0, n as int) =~= values_of(inputs@));
            assert(uniform_dim(values_of(current@), d));
        }
        while current.len() > 1
            invariant
                1 <= current@.len() <= n,
                n == inputs@.len(),
                n <= usize::MAX / 2,
                uniform_dim(values_of(current@), d),
                chain_fold(values_of(current@)) == target,
                ids@.len() == current@.len(),
                forall|j: int|
                    0 <= j < ids@.len() ==> (#[trigger] ids@[j]) < trace.nodes@.len(),
                trace.wf(),
                trace.nodes@.len() == 2 * n - current@.len(),
            decreases current@.len(),
        {
            let cur_len = current.len();
            let ghost cur_vals = values_of(current@);
            let mut next: Vec<AffineTuple> = Vec::new();
            let mut next_ids: Vec<usize> = Vec::new();
            let mut i: usize = 0;
            while i < cur_len
                invariant
                    0 <= i <= cur_len,
                    cur_len == current@.len(),
                    2 <= cur_len <= n,
                    n <= usize::MAX / 2,
                    i % 2 == 0 || i == cur_len,
                    cur_vals == values_of(current@),
                    uniform_dim(cur_vals, d),
                    next@.len() == (i + 1) / 2,
                    values_of(next@) =~= pair_round(cur_vals).subrange(0, next@.len() as int),
                    next_ids@.len() == next@.len(),
                    ids@.len() == cur_len,
                    forall|j: int|
                        0 <= j < ids@.len() ==> (#[trigger] ids@[j]) < trace.nodes@.len(),
                    forall|j: int|
                        0 <= j < next_ids@.len() ==> (#[trigger] next_ids@[j])
                            < trace.nodes@.len(),
                    trace.wf(),
                    trace.nodes@.len() == 2 * n - cur_len + (i as int) / 2,
                decreases cur_len - i,
            {
                let ghost prev = next@;
                if i + 1 < cur_len {
                    proof {
                        assert(current@[i + 1 as int]@ == cur_vals[i + 1 as int]);
                        assert(current@[i as int]@ == cur_vals[i as int]);
                        assert(cur_vals[i + 1 as int].dim() == d);
                        assert(cur_vals[i as int].dim() == d);
                    }
                    let result = current[i + 1].compose(&current[i]);
                    let id = trace.push_compose(ids[i], ids[i + 1], result.clone());
                    next_ids.push(id);
                    next.push(result);
                    i = i + 2;
                    proof {
                        assert forall|idx: int| 0 <= idx < next@.len() implies values_of(
                            next@,
                        )[idx] == pair_round(cur_vals).subrange(0, next@.len() as int)[idx] by {
                            if idx < prev.len() {
                                assert(next@[idx] == prev[idx]);
                                assert(values_of(prev)[idx] == prev[idx]@);
                            } else {
                                assert(2 * idx + 1 < cur_vals.len());
                                assert(next@[idx]@ == compose_value(
                                    cur_vals[2 * idx + 1],
                                    cur_vals[2 * idx],
                                ));
                            }
                        }
                        assert(values_of(next@) =~= pair_round(cur_vals).subrange(
                            0,
                            next@.len() as int,
                        ));
                    }
                } else {
                    let item = current[i].clone();
                    proof {
                        assert(item@ == cur_vals[i as int]);
                    }
                    next_ids.push(ids[i]);
                    next.push(item);
                    i = i + 1;
                    proof {
                        assert(next@.len() == (i + 1) / 2);
                        assert forall|idx: int| 0 <= idx < next@.len() implies values_of(
                            next@,
                        )[idx] == pair_round(cur_vals).subrange(0, next@.len() as int)[idx] by {
                            if idx < prev.len() {
                                assert(next@[idx] == prev[idx]);
                                assert(values_of(prev)[idx] == prev[idx]@);
                            } else {
                                assert(2 * idx == i - 1);
                                assert(2 * idx + 1 >= cur_vals.len());
                            }
                        }
                        assert(values_of(next@) =~= pair_round(cur_vals).subrange(
                            0,
                            next@.len() as int,
                        ));
                    }
                }
            }
            proof {
                assert(pair_round(cur_vals).subrange(0, pair_round(cur_vals).len() as int)
                    =~= pair_round(cur_vals));
                assert(values_of(next@) =~= pair_round(cur_vals));
                lemma_pair_round_chain(cur_vals, d);
            }
            current = next;
            ids = next_ids;
        }
        let root = current[0].clone();
        proof {
            assert(root@ == values_of(current@)[0]);
            assert(chain_fold(values_of(current@)) == values_of(current@)[0]);
        }
        HyperTensor { root, trace: Some(trace) }
    }

    /// How many reduction steps stand on record: the tape length in training
    /// mode, nothing in inference mode.
    pub fn complexity(&self) -> (c: usize)
        ensures
            c == match self.trace {
                Some(t) => t.nodes@.len(),
                None => 0,
            },
    {
        match &self.trace {
            Some(t) => t.complexity(),
            None => 0,
        }
    }
}

} // verus!
