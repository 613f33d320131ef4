//! The gradient tape: a record of the reduction topology, replayed backwards
//! to distribute gradients.
//!
//! Each fold step appends a node naming its operation and the nodes it
//! consumed, forming a DAG in topological order: a node's parents always
//! precede it. The backward pass walks the tape in reverse, handing each
//! merge node's gradient out to its parents in equal shares.

use vstd::prelude::*;
use crate::affine::{add_value, shrink_value, zero_value, AffineTuple, AffineValue};
use crate::folding::values_of;

verus! {

/// The operation a tape node records.
#[derive(Clone, Copy, Debug, PartialEq, Eq, Structural)]
pub enum OpType {
    /// Causal composition of exactly two nodes, earlier then later.
    TimeCompose,
    /// Order-independent merge of any number of branches.
    SpaceMerge,
    /// An input unit; gradient flow stops here.
    LeafEmbedding,
}

/// One step of the recorded computation.
pub struct TraceNode {
    /// Position of this node in the tape.
    pub id: usize,
    /// What the step did.
    pub op: OpType,
    /// The ids of the nodes the step consumed; all strictly earlier.
    pub parents: Vec<usize>,
    /// The value the step produced.
    pub value: AffineTuple,
}

/// The tape is topologically ordered: every node sits at its own index and
/// only consumes earlier nodes.
pub open spec fn trace_wf(nodes: Seq<TraceNode>) -> bool {
    &&& forall|i: int| 0 <= i < nodes.len() ==> (#[trigger] nodes[i]).id == i
    &&& forall|i: int, j: int|
        0 <= i < nodes.len() && 0 <= j < nodes[i].parents@.len() ==> (#[trigger] nodes[i].parents@[j])
            < i
}

/// Gradients after handing `share` to each parent in the list, in order.
pub open spec fn distribute(
    grads: Seq<AffineValue>,
    parents: Seq<usize>,
    share: AffineValue,
) -> Seq<AffineValue>
    decreases parents.len(),
{
    if parents.len() == 0 {
        grads
    } else {
        let g = distribute(grads, parents.drop_last(), share);
        let p = parents.last() as int;
        g.update(p, add_value(g[p], share))
    }
}

/// How one tape node transforms the gradient vector when replayed backwards:
/// a merge node splits its gradient equally among its parents; leaves and
/// compositions pass nothing on.
pub open spec fn backward_step(grads: Seq<AffineValue>, node: TraceNode) -> Seq<AffineValue> {
    match node.op {
        OpType::SpaceMerge => if node.parents@.len() > 0 {
            distribute(
                grads,
                node.parents@,
                shrink_value(grads[node.id as int], node.parents@.len() as int),
            )
        } else {
            grads
        },
        _ => grads,
    }
}

/// The gradient vector after replaying every node with index `k` or above,
/// latest first.
pub open spec fn backward_from(
    nodes: Seq<TraceNode>,
    grads: Seq<AffineValue>,
    k: int,
) -> Seq<AffineValue>
    decreases nodes.len() - k,
{
    if k < 0 || k >= nodes.len() {
        grads
    } else {
        backward_step(backward_from(nodes, grads, k + 1), nodes[k])
    }
}

/// The gradient vector the backward pass starts from: zero everywhere except
/// the final node, which receives the output gradient.
pub open spec fn seed_grads(n: nat, d: nat, g: AffineValue) -> Seq<AffineValue> {
    Seq::new(n, |i: int| zero_value(d)).update(n - 1, g)
}

/// The recorded reduction from inputs to root: a DAG whose replay drives
/// backpropagation.
pub struct CausalTrace {
    /// The tape, in the order the steps ran.
    pub nodes: Vec<TraceNode>,
    /// The node ids that fed the final output.
    pub active_path: Vec<usize>,
}

impl CausalTrace {
    /// Everything recorded so far is topologically ordered.
    pub open spec fn wf(&self) -> bool {
        trace_wf(self.nodes@)
    }

    /// An empty tape.
    pub fn new() -> (r: Self)
        ensures
            r.wf(),
            r.nodes@.len() == 0,
            r.active_path@.len() == 0,
    {
        CausalTrace { nodes: Vec::new(), active_path: Vec::new() }
    }

    /// Records an input unit; returns its node id.
    pub fn push_leaf(&mut self, value: AffineTuple) -> (id: usize)
        requires
            old(self).wf(),
            old(self).nodes@.len() < usize::MAX,
        ensures
            final(self).wf(),
            id == old(self).nodes@.len(),
            final(self).nodes@.len() == old(self).nodes@.len() + 1,
            final(self).nodes@.drop_last() == old(self).nodes@,
            final(self).nodes@.last().op == OpType::LeafEmbedding,
            final(self).nodes@.last().parents@.len() == 0,
            final(self).nodes@.last().value@ == value@,
            final(self).active_path@ == old(self).active_path@,
    {
        let id = self.nodes.len();
        self.nodes.push(TraceNode { id, op: OpType::LeafEmbedding, parents: Vec::new(), value });
        proof {
            assert(final(self).nodes@.drop_last() =~= old(self).nodes@);
        }
        id
    }

    /// Records a causal composition of two earlier nodes, earlier step
    /// first; returns the new node's id.
    pub fn push_compose(&mut self, prev_id: usize, next_id: usize, result: AffineTuple) -> (id:
        usize)
        requires
            old(self).wf(),
            old(self).nodes@.len() < usize::MAX,
            prev_id < old(self).nodes@.len(),
            next_id < old(self).nodes@.len(),
        ensures
            final(self).wf(),
            id == old(self).nodes@.len(),
            final(self).nodes@.len() == old(self).nodes@.len() + 1,
            final(self).nodes@.drop_last() == old(self).nodes@,
            final(self).nodes@.last().op == OpType::TimeCompose,
            final(self).nodes@.last().parents@ == seq![prev_id, next_id],
            final(self).nodes@.last().value@ == result@,
            final(self).active_path@ == old(self).active_path@,
    {
        let id = self.nodes.len();
        let mut parents: Vec<usize> = Vec::new();
        parents.push(prev_id);
        parents.push(next_id);
        proof {
            assert(parents@ =~= seq![prev_id, next_id]);
        }
        self.nodes.push(TraceNode { id, op: OpType::TimeCompose, parents, value: result });
        proof {
            assert(final(self).nodes@.drop_last() =~= old(self).nodes@);
        }
        id
    }

    /// Records a merge of any number of earlier branches; returns the new
    /// node's id.
    pub fn push_n_ary_merge(&mut self, parent_ids: Vec<usize>, result: AffineTuple) -> (id: usize)
        requires
            old(self).wf(),
            old(self).nodes@.len() < usize::MAX,
            forall|j: int|
                0 <= j < parent_ids@.len() ==> (#[trigger] parent_ids@[j]) < old(self).nodes@.len(),
        ensures
            final(self).wf(),
            id == old(self).nodes@.len(),
            final(self).nodes@.len() == old(self).nodes@.len() + 1,
            final(self).nodes@.drop_last() == old(self).nodes@,
            final(self).nodes@.last().op == OpType::SpaceMerge,
            final(self).nodes@.last().parents@ == parent_ids@,
            final(self).nodes@.last().value@ == result@,
            final(self).active_path@ == old(self).active_path@,
    {
        let id = self.nodes.len();
        self.nodes.push(TraceNode { id, op: OpType::SpaceMerge, parents: parent_ids, value: result });
        proof {
            assert(final(self).nodes@.drop_last() =~= old(self).nodes@);
        }
        id
    }

    /// Replays the tape in reverse, distributing the output gradient down to
    /// every node: each merge node splits its accumulated gradient equally
    /// among its parents. The result holds one gradient per tape node, in
    /// the dimension of the output gradient.
    pub fn backward(&self, grad_output: &AffineTuple) -> (r: Vec<AffineTuple>)
        requires
            self.wf(),
            self.nodes@.len() > 0,
        ensures
            r@.len() == self.nodes@.len(),
            values_of(r@) == backward_from(
                self.nodes@,
                seed_grads(self.nodes@.len(), grad_output@.dim(), grad_output@),
                0,
            ),
    {
        let n = self.nodes.len();
        let dim = grad_output.dimension();
        let ghost d = grad_output@.dim();
        let mut grads: Vec<AffineTuple> = Vec::new();
        let mut i: usize = 0;
        while i < n - 1
            invariant
                0 <= i <= n - 1,
                n == self.nodes@.len(),
                dim == d,
                grads@.len() == i,
                forall|j: int| 0 <= j < i ==> (#[trigger] grads@[j])@ == zero_value(d),
            decreases n - 1 - i,
        {
            grads.push(AffineTuple::zeros(dim));
            i = i + 1;
        }
        grads.push(grad_output.clone());
        let ghost seed = seed_grads(n as nat, d, grad_output@);
        proof {
            assert forall|j: int| 0 <= j < n implies values_of(grads@)[j] == seed[j] by {
                if j < n - 1 {
                    assert(grads@[j]@ == zero_value(d));
                }
            }
            assert(values_of(grads@) =~= seed);
        }
        let mut k: usize = n;
        while k > 0
            invariant
                0 <= k <= n,
                n == self.nodes@.len(),
                dim == d,
                trace_wf(self.nodes@),
                grads@.len() == n,
                forall|j: int| 0 <= j < n ==> (#[trigger] grads@[j])@.dim() == d,
                values_of(grads@) == backward_from(self.nodes@, seed, k as int),
            decreases k,
        {
            k = k - 1;
            let ghost before = values_of(grads@);
            let is_merge = match self.nodes[k].op {
                OpType::SpaceMerge => true,
                _ => false,
            };
            if is_merge && self.nodes[k].parents.len() > 0 {
                let count = self.nodes[k].parents.len();
                let share = grads[k].scale_down(count);
                let ghost sharev = shrink_value(before[k as int], count as int);
                let ghost pseq = self.nodes@[k as int].parents@;
                let mut j: usize = 0;
                while j < count
                    invariant
                        0 <= j <= count,
                        n == self.nodes@.len(),
                        0 <= k < n,
                        count == pseq.len(),
                        pseq == self.nodes@[k as int].parents@,
                        forall|l: int| 0 <= l < pseq.len() ==> (#[trigger] pseq[l]) < k,
                        share@ == sharev,
                        sharev.dim() == d,
                        grads@.len() == n,
                        forall|l: int| 0 <= l < n ==> (#[trigger] grads@[l])@.dim() == d,
                        values_of(grads@) == distribute(before, pseq.subrange(0, j as int), sharev),
                    decreases count - j,
                {
                    proof {
                        assert(pseq.subrange(0, j + 1 as int).drop_last() =~= pseq.subrange(
                            0,
                            j as int,
                        ));
                        assert(pseq.subrange(0, j + 1 as int).last() == pseq[j as int]);
                    }
                    let ghost mid = values_of(grads@);
                    let ghost g0 = grads@;
                    let p = self.nodes[k].parents[j];
                    let cur = grads.remove(p);
                    let updated = cur.add_components(&share);
                    grads.insert(p, updated);
                    proof {
                        assert(grads@ =~= g0.update(p as int, updated));
                        assert(updated@ == add_value(mid[p as int], sharev));
                        assert forall|l: int| 0 <= l < n implies values_of(grads@)[l] == mid.update(
                            p as int,
                            add_value(mid[p as int], sharev),
                        )[l] by {
                            if l != p as int {
                                assert(grads@[l] == g0[l]);
                            }
                        }
                        assert(values_of(grads@) =~= mid.update(
                            p as int,
                            add_value(mid[p as int], sharev),
                        ));
                    }
                    j = j + 1;
                }
                proof {
                    assert(pseq.subrange(0, count as int) =~= pseq);
                    assert(values_of(grads@) == backward_step(before, self.nodes@[k as int]));
                }
            } else {
                proof {
                    assert(values_of(grads@) == backward_step(before, self.nodes@[k as int]));
                }
            }
        }
        grads
    }

    /// The number of recorded steps.
    pub fn complexity(&self) -> (c: usize)
        ensures
            c == self.nodes@.len(),
    {
        self.nodes.len()
    }
}

} // verus!
