//! Tree reduction of algebraic units: causal timeline folding and
//! order-independent branch merging.
//!
//! A timeline is folded into the single equivalent transformation
//! `compose(last, ... compose(second, first))`; because composition is
//! associative, independent chunks of the chain may be reduced on separate
//! workers without changing the result. Branches are merged through the
//! sum/count monoid `(s1, c1) + (s2, c2) = (s1 + s2, c1 + c2)` and normalized
//! once at the end, instead of by pairwise averaging, which is not
//! associative and would make the answer depend on the reduction-tree shape.

use vstd::prelude::*;
use crate::affine::{
    add_value, compose_value, shrink_value, AffineTuple, AffineValue, lemma_add_associative,
    lemma_add_commutative,
};

verus! {

/// The unit values of a list of units, in order.
pub open spec fn values_of(s: Seq<AffineTuple>) -> Seq<AffineValue> {
    Seq::new(s.len(), |i: int| s[i]@)
}

/// All units share one translation dimension.
pub open spec fn uniform_dim(s: Seq<AffineValue>, d: nat) -> bool {
    forall|i: int| 0 <= i < s.len() ==> (#[trigger] s[i]).dim() == d
}

/// The causal chain of a timeline: each unit composed onto everything before
/// it, `compose(s[n-1], ... compose(s[1], s[0]))`.
pub open spec fn chain_fold(s: Seq<AffineValue>) -> AffineValue
    recommends
        s.len() > 0,
    decreases s.len(),
{
    if s.len() <= 1 {
        s[0]
    } else {
        compose_value(s.last(), chain_fold(s.drop_last()))
    }
}

/// The component-wise sum of a collection of branches, folded left to right.
pub open spec fn sum_fold(s: Seq<AffineValue>) -> AffineValue
    recommends
        s.len() > 0,
    decreases s.len(),
{
    if s.len() <= 1 {
        s[0]
    } else {
        add_value(sum_fold(s.drop_last()), s.last())
    }
}

/// A fold over a uniform collection stays in the same dimension.
pub proof fn lemma_sum_fold_dim(s: Seq<AffineValue>, d: nat)
    requires
        s.len() > 0,
        uniform_dim(s, d),
    ensures
        sum_fold(s).dim() == d,
    decreases s.len(),
{
    if s.len() > 1 {
        assert(uniform_dim(s.drop_last(), d)) by {
            assert(forall|i: int| 0 <= i < s.len() - 1 ==> (#[trigger] s.drop_last()[i]) == s[i]);
        }
        lemma_sum_fold_dim(s.drop_last(), d);
    }
}

/// Sum/count accumulator for branch merging: the monoid element
/// `(sum, count)` whose merge is associative and commutative, unlike a
/// running average.
struct Accumulator {
    sum: AffineTuple,
    count: usize,
}

impl Accumulator {
    /// Lifts one branch into the monoid.
    fn new(leaf: AffineTuple) -> (r: Self)
        ensures
            r.sum@ == leaf@,
            r.count == 1,
    {
        Accumulator { sum: leaf, count: 1 }
    }

    /// Merges two partial sums by pure addition; no averaging happens here.
    fn merge(self, other: Self) -> (r: Self)
        requires
            self.sum@.dim() == other.sum@.dim(),
            self.count + other.count <= usize::MAX,
        ensures
            r.sum@ == add_value(self.sum@, other.sum@),
            r.count == self.count + other.count,
    {
        Accumulator { sum: self.sum.add_components(&other.sum), count: self.count + other.count }
    }

    /// Normalizes the accumulated sum to the mean: `sum / count`, or nothing
    /// if no branch was merged.
    fn finalize(self) -> (r: Option<AffineTuple>)
        ensures
            match r {
                None => self.count == 0,
                Some(u) => self.count > 0 && u@ == shrink_value(self.sum@, self.count as int),
            },
    {
        if self.count == 0 {
            None
        } else {
            Some(self.sum.scale_down(self.count))
        }
    }
}

/// Folds collections of units along time (causal composition) or across
/// space (order-independent averaging).
pub struct HyperFolder;

impl HyperFolder {
    /// Compresses a timeline of steps into the one equivalent transformation,
    /// preserving causal order: the result is
    /// `compose(last, ... compose(second, first))`. An empty timeline folds
    /// to nothing.
    pub fn fold_timeline(timeline: &[AffineTuple]) -> (r: Option<AffineTuple>)
        requires
            forall|i: int|
                0 <= i < timeline@.len() ==> (#[trigger] timeline@[i])@.dim()
                    == timeline@[0]@.dim(),
        ensures
            match r {
                None => timeline@.len() == 0,
                Some(u) => timeline@.len() > 0 && u@ == chain_fold(values_of(timeline@)),
            },
    {
        if timeline.len() == 0 {
            return None;
        }
        let ghost vs = values_of(timeline@);
        let mut acc = timeline[0].clone();
        let mut i: usize = 1;
        while i < timeline.len()
            invariant
                1 <= i <= timeline@.len(),
                vs == values_of(timeline@),
                forall|j: int| 0 <= j < vs.len() ==> (#[trigger] vs[j]).dim() == vs[0].dim(),
                acc@ == chain_fold(vs.subrange(0, i as int)),
                acc@.dim() == vs[0].dim(),
            decreases timeline@.len() - i,
        {
            proof {
                assert(vs.subrange(0, i + 1 as int).drop_last() =~= vs.subrange(0, i as int));
                assert(vs.subrange(0, i + 1 as int).last() == vs[i as int]);
            }
            acc = timeline[i].compose(&acc);
            i = i + 1;
        }
        proof {
            assert(vs.subrange(0, vs.len() as int) =~= vs);
        }
        Some(acc)
    }

    /// Merges independent context branches into their mean, through the
    /// sum/count monoid: every branch is summed first and the division
    /// happens exactly once, so the answer does not depend on how the
    /// branches were grouped or ordered. An empty collection folds to
    /// nothing.
    pub fn fold_context(branches: &[AffineTuple]) -> (r: Option<AffineTuple>)
        requires
            forall|i: int|
                0 <= i < branches@.len() ==> (#[trigger] branches@[i])@.dim()
                    == branches@[0]@.dim(),
        ensures
            match r {
                None => branches@.len() == 0,
                Some(u) => branches@.len() > 0 && u@ == shrink_value(
                    sum_fold(values_of(branches@)),
                    branches@.len() as int,
                ),
            },
    {
        if branches.len() == 0 {
            return None;
        }
        let ghost vs = values_of(branches@);
        let mut acc = Accumulator::new(branches[0].clone());
        let mut i: usize = 1;
        while i < branches.len()
            invariant
                1 <= i <= branches@.len(),
                vs == values_of(branches@),
                forall|j: int| 0 <= j < vs.len() ==> (#[trigger] vs[j]).dim() == vs[0].dim(),
                acc.sum@ == sum_fold(vs.subrange(0, i as int)),
                acc.count == i,
                acc.sum@.dim() == vs[0].dim(),
            decreases branches@.len() - i,
        {
            proof {
                assert(vs.subrange(0, i + 1 as int).drop_last() =~= vs.subrange(0, i as int));
                assert(vs.subrange(0, i + 1 as int).last() == vs[i as int]);
            }
            acc = acc.merge(Accumulator::new(branches[i].clone()));
            i = i + 1;
        }
        proof {
            assert(vs.subrange(0, vs.len() as int) =~= vs);
        }
        acc.finalize()
    }

    /// Folds a stack of layer outputs bottom-up. Layers compose like time
    /// steps, so this is the causal chain again.
    pub fn fold_layers(layer_outputs: &[AffineTuple]) -> (r: Option<AffineTuple>)
        requires
            forall|i: int|
                0 <= i < layer_outputs@.len() ==> (#[trigger] layer_outputs@[i])@.dim()
                    == layer_outputs@[0]@.dim(),
        ensures
            match r {
                None => layer_outputs@.len() == 0,
                Some(u) => layer_outputs@.len() > 0 && u@ == chain_fold(values_of(layer_outputs@)),
            },
    {
        Self::fold_timeline(layer_outputs)
    }
}

/// Folding the timeline `[a, b, c]` yields exactly the causal chain
/// `compose(c, compose(b, a))`: the first step is innermost, the last step
/// outermost.
pub proof fn lemma_fold_sequence_chain(a: AffineValue, b: AffineValue, c: AffineValue)
    ensures
        chain_fold(seq![a, b, c]) == compose_value(c, compose_value(b, a)),
{
    let s = seq![a, b, c];
    assert(s.drop_last() =~= seq![a, b]);
    assert(seq![a, b].drop_last() =~= seq![a]);
    assert(chain_fold(seq![a]) == a);
    assert(chain_fold(seq![a, b]) == compose_value(b, a));
}

/// Removing one branch from anywhere in a collection and adding it back on
/// top of the fold changes nothing: the merge is associative and
/// commutative.
proof fn lemma_sum_fold_remove(s: Seq<AffineValue>, d: nat, i: int)
    requires
        s.len() >= 2,
        uniform_dim(s, d),
        0 <= i < s.len(),
    ensures
        sum_fold(s) == add_value(sum_fold(s.remove(i)), s[i]),
    decreases s.len(),
{
    let x = s.last();
    let dl = s.drop_last();
    assert(uniform_dim(dl, d)) by {
        assert(forall|j: int| 0 <= j < dl.len() ==> (#[trigger] dl[j]) == s[j]);
    }
    if i == s.len() - 1 {
        assert(s.remove(i) =~= dl);
    } else if s.len() == 2 {
        assert(i == 0);
        assert(s.remove(0) =~= seq![s[1]]);
        assert(dl.len() == 1 && dl[0] == s[0]);
        assert(sum_fold(dl) == s[0]);
        assert(sum_fold(s) == add_value(s[0], s[1]));
        assert(sum_fold(s.remove(0)) == s[1]);
        lemma_add_commutative(s[0], s[1]);
    } else {
        lemma_sum_fold_remove(dl, d, i);
        assert(uniform_dim(dl.remove(i), d)) by {
            assert(forall|j: int|
                0 <= j < dl.remove(i).len() ==> (#[trigger] dl.remove(i)[j]) == if j < i {
                    dl[j]
                } else {
                    dl[j + 1]
                });
        }
        lemma_sum_fold_dim(dl.remove(i), d);
        let rest = sum_fold(dl.remove(i));
        // sum(s) = (rest + s[i]) + x = rest + (s[i] + x) = rest + (x + s[i])
        //        = (rest + x) + s[i] = sum(s.remove(i)) + s[i]
        lemma_add_associative(rest, s[i], x);
        lemma_add_commutative(s[i], x);
        lemma_add_associative(rest, x, s[i]);
        assert(s.remove(i).drop_last() =~= dl.remove(i));
        assert(s.remove(i).last() == x);
        assert(sum_fold(s.remove(i)) == add_value(rest, x));
    }
}

/// Permutation invariance of branch folding: collections holding the same
/// branches in any order have the same sum, and therefore the same
/// normalized mean.
pub proof fn lemma_fold_branches_permutation(s: Seq<AffineValue>, t: Seq<AffineValue>, d: nat)
    requires
        s.len() > 0,
        uniform_dim(s, d),
        uniform_dim(t, d),
        s.to_multiset() == t.to_multiset(),
    ensures
        sum_fold(s) == sum_fold(t),
        shrink_value(sum_fold(s), s.len() as int) == shrink_value(sum_fold(t), t.len() as int),
    decreases s.len(),
{
    broadcast use vstd::seq_lib::group_to_multiset_ensures;

    assert(s.len() == s.to_multiset().len());
    assert(t.len() == t.to_multiset().len());
    if s.len() == 1 {
        assert(s.contains(s[0]));
        assert(t.to_multiset().count(s[0]) > 0);
        assert(t.contains(s[0]));
        let k = choose|k: int| 0 <= k < t.len() && t[k] == s[0];
        assert(k == 0);
        assert(sum_fold(s) == s[0] && sum_fold(t) == t[0]);
    } else {
        let x = s.last();
        let dl = s.drop_last();
        assert(s.contains(x));
        assert(t.to_multiset().count(x) > 0);
        assert(t.contains(x));
        let k = choose|k: int| 0 <= k < t.len() && t[k] == x;
        assert(dl =~= s.remove(s.len() - 1));
        assert(s.remove(s.len() - 1).to_multiset() == s.to_multiset().remove(x));
        assert(t.remove(k).to_multiset() == t.to_multiset().remove(x));
        assert(uniform_dim(dl, d)) by {
            assert(forall|j: int| 0 <= j < dl.len() ==> (#[trigger] dl[j]) == s[j]);
        }
        assert(uniform_dim(t.remove(k), d)) by {
            assert(forall|j: int|
                0 <= j < t.remove(k).len() ==> (#[trigger] t.remove(k)[j]) == if j < k {
                    t[j]
                } else {
                    t[j + 1]
                });
        }
        lemma_fold_branches_permutation(dl, t.remove(k), d);
        lemma_sum_fold_remove(t, d, k);
        assert(sum_fold(s) == add_value(sum_fold(dl), x));
    }
}

} // verus!
