//! Epoch-gated, idempotent reduction of per-layer gradient contributions.
//!
//! Each node receives gradient contributions from its topology children and
//! from its own local computation (recorded under the reserved contributor id
//! `"SELF"`). Per layer, contributions are merged as a weighted sum keyed by
//! batch size; once every required contributor has reported, the accumulator
//! is normalized to `weighted_sum / total_batch`, evicted, and returned as
//! one combined contribution. Contributions from an older epoch are dropped
//! without touching any state, and a duplicate `(layer, contributor)` pair is
//! ignored, so retries and reordered delivery cannot corrupt the result.

use vstd::prelude::*;
use vstd::string::StringExecFns;
use crate::wrap::div_toward_zero;

verus! {

/// Outcome of feeding one contribution to the aggregator.
#[derive(Debug)]
pub enum AggregationResult {
    /// Some required contributor has not reported yet; the layer keeps
    /// accumulating.
    Pending,
    /// Every required contributor has reported; the payload is the weighted
    /// average, and the layer's accumulator has been evicted.
    Complete(GradientUpdate),
    /// The contribution was tagged with an epoch older than the current one
    /// and was dropped without mutating any state.
    Stale,
}

/// A contribution the aggregator refuses before mutating any state.
#[derive(Debug, PartialEq, Eq, Structural)]
pub enum AggregateError {
    /// The contribution's array lengths disagree with the shape this layer's
    /// accumulator adopted from the first contribution seen.
    ShapeMismatch,
    /// Folding the contribution in would push an accumulated sum or the total
    /// batch count outside its machine range.
    Overflow,
}

/// One layer's gradient contribution: flat weight-gradient and bias-gradient
/// arrays plus the batch size that produced them.
#[derive(Debug)]
pub struct GradientUpdate {
    /// Index of the model layer this gradient applies to.
    pub layer_index: usize,
    /// Flattened weight gradient.
    pub weight_grad: Vec<i64>,
    /// Bias gradient.
    pub bias_grad: Vec<i64>,
    /// Number of samples behind this gradient, the weight of the
    /// contribution in the final average.
    pub batch_size: usize,
}

impl Clone for GradientUpdate {
    fn clone(&self) -> (r: Self)
        ensures
            r.layer_index == self.layer_index,
            r.weight_grad@ == self.weight_grad@,
            r.bias_grad@ == self.bias_grad@,
            r.batch_size == self.batch_size,
    {
        GradientUpdate {
            layer_index: self.layer_index,
            weight_grad: self.weight_grad.clone(),
            bias_grad: self.bias_grad.clone(),
            batch_size: self.batch_size,
        }
    }
}

/// Mathematical state of one layer's accumulator.
pub ghost struct AccValue {
    /// Accumulated `gradient * batch_size` per weight component.
    pub sum_w: Seq<i128>,
    /// Accumulated `gradient * batch_size` per bias component.
    pub sum_b: Seq<i128>,
    /// Accumulated batch sizes.
    pub total: int,
    /// Ids that have already contributed to this layer this epoch.
    pub contributors: Set<Seq<char>>,
}

/// The state a layer is in before any contribution arrived.
pub open spec fn empty_acc() -> AccValue {
    AccValue { sum_w: Seq::empty(), sum_b: Seq::empty(), total: 0, contributors: Set::empty() }
}

/// The ids named by a list of peer id strings.
pub open spec fn id_set(ids: Seq<String>) -> Set<Seq<char>> {
    Set::new(|v: Seq<char>| exists|j: int| 0 <= j < ids.len() && ids[j]@ == v)
}

/// The reserved contributor id under which a node records its own locally
/// computed gradient.
pub open spec fn self_contributor() -> Seq<char> {
    "SELF"@
}

/// The contributors a layer must collect before it may finalize: every
/// expected topology child plus the node's own local contribution.
pub open spec fn required_set(expected: Seq<String>) -> Set<Seq<char>> {
    id_set(expected).insert(self_contributor())
}

/// Whether a contribution's arrays fit the shape the accumulator adopted
/// from the first contribution. A fresh accumulator accepts any shape.
pub open spec fn shape_ok(acc: AccValue, w: Seq<i64>, b: Seq<i64>) -> bool {
    acc.contributors.is_empty() || (w.len() == acc.sum_w.len() && b.len() == acc.sum_b.len())
}

/// Whether folding the contribution in would leave the machine range of an
/// accumulated sum or of the total batch count.
pub open spec fn absorb_overflows(acc: AccValue, w: Seq<i64>, b: Seq<i64>, batch: int) -> bool {
    if acc.contributors.is_empty() {
        false
    } else {
        ||| exists|i: int|
            #![trigger acc.sum_w[i]]
            0 <= i < acc.sum_w.len() && !(i128::MIN <= acc.sum_w[i] + w[i] * batch <= i128::MAX)
        ||| exists|i: int|
            #![trigger acc.sum_b[i]]
            0 <= i < acc.sum_b.len() && !(i128::MIN <= acc.sum_b[i] + b[i] * batch <= i128::MAX)
        ||| acc.total + batch > usize::MAX
    }
}

/// The accumulator after folding in one contribution from a new contributor.
/// The first contribution fixes the array shapes; later ones add on top.
pub open spec fn acc_absorb(
    acc: AccValue,
    w: Seq<i64>,
    b: Seq<i64>,
    batch: int,
    from: Seq<char>,
) -> AccValue {
    if acc.contributors.is_empty() {
        AccValue {
            sum_w: Seq::new(w.len(), |i: int| (w[i] * batch) as i128),
            sum_b: Seq::new(b.len(), |i: int| (b[i] * batch) as i128),
            total: batch,
            contributors: Set::empty().insert(from),
        }
    } else {
        AccValue {
            sum_w: Seq::new(acc.sum_w.len(), |i: int| (acc.sum_w[i] + w[i] * batch) as i128),
            sum_b: Seq::new(acc.sum_b.len(), |i: int| (acc.sum_b[i] + b[i] * batch) as i128),
            total: acc.total + batch,
            contributors: acc.contributors.insert(from),
        }
    }
}

/// The divisor used to normalize an accumulator: the accumulated batch total,
/// or one if no samples were counted (in which case every sum is zero).
pub open spec fn divisor_of(acc: AccValue) -> int {
    if acc.total > 0 {
        acc.total
    } else {
        1
    }
}

/// The finalized weight gradient: each accumulated sum divided by the total
/// batch count, rounding toward zero.
pub open spec fn finalize_w(acc: AccValue) -> Seq<i64> {
    Seq::new(acc.sum_w.len(), |i: int| div_toward_zero(acc.sum_w[i] as int, divisor_of(acc)) as i64)
}

/// The finalized bias gradient.
pub open spec fn finalize_b(acc: AccValue) -> Seq<i64> {
    Seq::new(acc.sum_b.len(), |i: int| div_toward_zero(acc.sum_b[i] as int, divisor_of(acc)) as i64)
}

/// Every accumulated sum is bounded by the total batch count times the
/// extreme gradient values, which is what keeps the normalized average
/// representable. Established on creation and preserved by every absorb.
pub open spec fn acc_wf(acc: AccValue) -> bool {
    &&& 0 <= acc.total <= usize::MAX
    &&& forall|i: int|
        0 <= i < acc.sum_w.len() ==> -(acc.total * (i64::MAX as int + 1)) <= #[trigger] acc.sum_w[i]
            <= acc.total * (i64::MAX as int)
    &&& forall|i: int|
        0 <= i < acc.sum_b.len() ==> -(acc.total * (i64::MAX as int + 1)) <= #[trigger] acc.sum_b[i]
            <= acc.total * (i64::MAX as int)
}

/// Running accumulator for one `(epoch, layer)` pair.
struct LayerAccumulator {
    weighted_sum_w: Vec<i128>,
    weighted_sum_b: Vec<i128>,
    total_batch: usize,
    contributors: Vec<String>,
}

impl View for LayerAccumulator {
    type V = AccValue;

    closed spec fn view(&self) -> AccValue {
        AccValue {
            sum_w: self.weighted_sum_w@,
            sum_b: self.weighted_sum_b@,
            total: self.total_batch as int,
            contributors: Set::new(
                |v: Seq<char>| exists|j: int| 0 <= j < self.contributors@.len()
                    && self.contributors@[j]@ == v,
            ),
        }
    }
}

/// Multiplies a gradient component by the batch size; the product of an `i64`
/// and a `usize` always fits in an `i128`.
fn weighted(g: i64, batch: usize) -> (p: i128)
    ensures
        p == g * batch,
{
    proof {
        assert((g as int) * (batch as int) <= i128::MAX && i128::MIN <= (g as int) * (batch as int))
            by (nonlinear_arith)
            requires
                i64::MIN <= g <= i64::MAX,
                0 <= batch <= usize::MAX,
        ;
    }
    (g as i128) * (batch as i128)
}

/// The per-element weighted sums of a first contribution, `gradient * batch`.
fn initial_sums(grad: &Vec<i64>, batch: usize) -> (r: Vec<i128>)
    ensures
        r@ =~= Seq::new(grad@.len(), |i: int| (grad@[i] * batch) as i128),
{
    let mut r: Vec<i128> = Vec::new();
    let mut i: usize = 0;
    while i < grad.len()
        invariant
            0 <= i <= grad@.len(),
            r@ =~= Seq::new(i as nat, |j: int| (grad@[j] * batch) as i128),
        decreases grad@.len() - i,
    {
        r.push(weighted(grad[i], batch));
        i = i + 1;
        proof {
            assert(r@ =~= Seq::new(i as nat, |j: int| (grad@[j] * batch) as i128));
        }
    }
    r
}

/// Adds `gradient * batch` onto each accumulated sum, refusing the whole
/// contribution if any single component would overflow.
fn accumulated_sums(sums: &Vec<i128>, grad: &Vec<i64>, batch: usize) -> (r: Option<Vec<i128>>)
    requires
        sums@.len() == grad@.len(),
    ensures
        match r {
            Some(v) => {
                &&& v@ =~= Seq::new(sums@.len(), |i: int| (sums@[i] + grad@[i] * batch) as i128)
                &&& forall|i: int|
                    0 <= i < sums@.len() ==> i128::MIN <= #[trigger] (sums@[i] + grad@[i] * batch)
                        <= i128::MAX
            },
            None => exists|i: int|
                0 <= i < sums@.len() && !(i128::MIN <= #[trigger] (sums@[i] + grad@[i] * batch)
                    <= i128::MAX),
        },
{
    let mut r: Vec<i128> = Vec::new();
    let mut i: usize = 0;
    while i < sums.len()
        invariant
            0 <= i <= sums@.len(),
            sums@.len() == grad@.len(),
            r@ =~= Seq::new(i as nat, |j: int| (sums@[j] + grad@[j] * batch) as i128),
            forall|j: int|
                0 <= j < i ==> i128::MIN <= #[trigger] (sums@[j] + grad@[j] * batch) <= i128::MAX,
        decreases sums@.len() - i,
    {
        let p = weighted(grad[i], batch);
        match sums[i].checked_add(p) {
            Some(s) => {
                r.push(s);
            },
            None => {
                return None;
            },
        }
        i = i + 1;
        proof {
            assert(r@ =~= Seq::new(i as nat, |j: int| (sums@[j] + grad@[j] * batch) as i128));
        }
    }
    Some(r)
}

impl LayerAccumulator {
    /// Creates a layer accumulator from the first contribution seen, which
    /// fixes the array shapes for the rest of the epoch.
    fn from_first(grad: &GradientUpdate, from_node: &String) -> (acc: Self)
        ensures
            acc@ == acc_absorb(
                empty_acc(),
                grad.weight_grad@,
                grad.bias_grad@,
                grad.batch_size as int,
                from_node@,
            ),
            acc_wf(acc@),
            !acc@.contributors.is_empty(),
    {
        let mut contributors: Vec<String> = Vec::new();
        contributors.push(from_node.clone());
        let acc = LayerAccumulator {
            weighted_sum_w: initial_sums(&grad.weight_grad, grad.batch_size),
            weighted_sum_b: initial_sums(&grad.bias_grad, grad.batch_size),
            total_batch: grad.batch_size,
            contributors,
        };
        proof {
            let target = acc_absorb(
                empty_acc(),
                grad.weight_grad@,
                grad.bias_grad@,
                grad.batch_size as int,
                from_node@,
            );
            assert forall|v: Seq<char>| acc@.contributors.contains(v)
                <==> target.contributors.contains(v) by {
                if acc@.contributors.contains(v) {
                    let j = choose|j: int|
                        0 <= j < acc.contributors@.len() && acc.contributors@[j]@ == v;
                    assert(v == from_node@);
                }
                if target.contributors.contains(v) {
                    assert(acc.contributors@[0]@ == v);
                }
            }
            assert(acc@.contributors =~= target.contributors);
            assert(acc@.sum_w =~= target.sum_w);
            assert(acc@.sum_b =~= target.sum_b);
            assert(acc@.contributors.contains(from_node@));
            let total = grad.batch_size as int;
            assert forall|i: int| 0 <= i < acc@.sum_w.len() implies -(total * (i64::MAX as int
                + 1)) <= #[trigger] acc@.sum_w[i] <= total * (i64::MAX as int) by {
                let g = grad.weight_grad@[i] as int;
                assert(-(total * (i64::MAX as int + 1)) <= g * total <= total * (i64::MAX as int))
                    by (nonlinear_arith)
                    requires
                        -(i64::MAX as int + 1) <= g <= i64::MAX as int,
                        0 <= total,
                ;
            }
            assert forall|i: int| 0 <= i < acc@.sum_b.len() implies -(total * (i64::MAX as int
                + 1)) <= #[trigger] acc@.sum_b[i] <= total * (i64::MAX as int) by {
                let g = grad.bias_grad@[i] as int;
                assert(-(total * (i64::MAX as int + 1)) <= g * total <= total * (i64::MAX as int))
                    by (nonlinear_arith)
                    requires
                        -(i64::MAX as int + 1) <= g <= i64::MAX as int,
                        0 <= total,
                ;
            }
        }
        acc
    }

    /// Whether this id has already contributed to the layer this epoch.
    fn contains_contributor(&self, id: &String) -> (b: bool)
        ensures
            b == self@.contributors.contains(id@),
    {
        let mut i: usize = 0;
        while i < self.contributors.len()
            invariant
                0 <= i <= self.contributors@.len(),
                forall|j: int| 0 <= j < i ==> self.contributors@[j]@ != id@,
            decreases self.contributors@.len() - i,
        {
            if self.contributors[i].eq(id) {
                return true;
            }
            i = i + 1;
        }
        false
    }

    /// Folds one contribution from a new contributor into the running sums,
    /// validating shape and range before mutating anything: a refused
    /// contribution leaves the accumulator exactly as it was.
    fn absorb(&mut self, grad: &GradientUpdate, from_node: &String) -> (r: Result<
        (),
        AggregateError,
    >)
        requires
            acc_wf(old(self)@),
            !old(self)@.contributors.is_empty(),
        ensures
            !shape_ok(old(self)@, grad.weight_grad@, grad.bias_grad@) ==> r == Err::<
                (),
                AggregateError,
            >(AggregateError::ShapeMismatch) && final(self)@ == old(self)@,
            shape_ok(old(self)@, grad.weight_grad@, grad.bias_grad@) && absorb_overflows(
                old(self)@,
                grad.weight_grad@,
                grad.bias_grad@,
                grad.batch_size as int,
            ) ==> r == Err::<(), AggregateError>(AggregateError::Overflow) && final(self)@ == old(
                self,
            )@,
            shape_ok(old(self)@, grad.weight_grad@, grad.bias_grad@) && !absorb_overflows(
                old(self)@,
                grad.weight_grad@,
                grad.bias_grad@,
                grad.batch_size as int,
            ) ==> r == Ok::<(), AggregateError>(()) && final(self)@ == acc_absorb(
                old(self)@,
                grad.weight_grad@,
                grad.bias_grad@,
                grad.batch_size as int,
                from_node@,
            ) && acc_wf(final(self)@) && !final(self)@.contributors.is_empty(),
    {
        if grad.weight_grad.len() != self.weighted_sum_w.len() || grad.bias_grad.len()
            != self.weighted_sum_b.len() {
            return Err(AggregateError::ShapeMismatch);
        }
        let new_total = match self.total_batch.checked_add(grad.batch_size) {
            Some(t) => t,
            None => {
                return Err(AggregateError::Overflow);
            },
        };
        let new_w = match accumulated_sums(&self.weighted_sum_w, &grad.weight_grad, grad.batch_size)
        {
            Some(v) => v,
            None => {
                return Err(AggregateError::Overflow);
            },
        };
        let new_b = match accumulated_sums(&self.weighted_sum_b, &grad.bias_grad, grad.batch_size) {
            Some(v) => v,
            None => {
                return Err(AggregateError::Overflow);
            },
        };
        self.weighted_sum_w = new_w;
        self.weighted_sum_b = new_b;
        self.total_batch = new_total;
        self.contributors.push(from_node.clone());
        proof {
            let target = acc_absorb(
                old(self)@,
                grad.weight_grad@,
                grad.bias_grad@,
                grad.batch_size as int,
                from_node@,
            );
            assert forall|v: Seq<char>| self@.contributors.contains(v)
                <==> target.contributors.contains(v) by {
                let n0 = old(self).contributors@.len() as int;
                if self@.contributors.contains(v) {
                    let j = choose|j: int|
                        0 <= j < self.contributors@.len() && self.contributors@[j]@ == v;
                    if j < n0 {
                        assert(old(self).contributors@[j]@ == v);
                        assert(old(self)@.contributors.contains(v));
                    } else {
                        assert(v == from_node@);
                    }
                }
                if target.contributors.contains(v) {
                    if v == from_node@ {
                        assert(self.contributors@[n0]@ == v);
                        assert(self@.contributors.contains(v));
                    } else {
                        let j = choose|j: int|
                            0 <= j < old(self).contributors@.len()
                                && old(self).contributors@[j]@ == v;
                        assert(self.contributors@[j]@ == v);
                        assert(self@.contributors.contains(v));
                    }
                }
            }
            assert(self@.contributors =~= target.contributors);
            assert(self@.sum_w =~= target.sum_w);
            assert(self@.sum_b =~= target.sum_b);
            assert(self@.contributors.contains(from_node@));
            let total0 = old(self)@.total;
            let batch = grad.batch_size as int;
            assert forall|i: int| 0 <= i < self@.sum_w.len() implies -(self@.total * (
            i64::MAX as int + 1)) <= #[trigger] self@.sum_w[i] <= self@.total * (i64::MAX as int) by {
                let s0 = old(self)@.sum_w[i] as int;
                let g = grad.weight_grad@[i] as int;
                assert(-((total0 + batch) * (i64::MAX as int + 1)) <= s0 + g * batch <= (total0
                    + batch) * (i64::MAX as int)) by (nonlinear_arith)
                    requires
                        -(total0 * (i64::MAX as int + 1)) <= s0 <= total0 * (i64::MAX as int),
                        -(i64::MAX as int + 1) <= g <= i64::MAX as int,
                        0 <= batch,
                        0 <= total0,
                ;
            }
            assert forall|i: int| 0 <= i < self@.sum_b.len() implies -(self@.total * (
            i64::MAX as int + 1)) <= #[trigger] self@.sum_b[i] <= self@.total * (i64::MAX as int) by {
                let s0 = old(self)@.sum_b[i] as int;
                let g = grad.bias_grad@[i] as int;
                assert(-((total0 + batch) * (i64::MAX as int + 1)) <= s0 + g * batch <= (total0
                    + batch) * (i64::MAX as int)) by (nonlinear_arith)
                    requires
                        -(total0 * (i64::MAX as int + 1)) <= s0 <= total0 * (i64::MAX as int),
                        -(i64::MAX as int + 1) <= g <= i64::MAX as int,
                        0 <= batch,
                        0 <= total0,
                ;
            }
        }
        Ok(())
    }
}


/// Divides an accumulated sum by the batch total, rounding toward zero. The
/// well-formedness bound guarantees the quotient fits in an `i64`.
fn div_i128_to_i64(a: i128, n: usize) -> (r: i64)
    requires
        1 <= n,
        -((n as int) * (i64::MAX as int + 1)) <= a <= (n as int) * (i64::MAX as int),
    ensures
        r as int == div_toward_zero(a as int, n as int),
{
    if a >= 0 {
        proof {
            vstd::arithmetic::div_mod::lemma_div_is_ordered(
                a as int,
                (n as int) * (i64::MAX as int),
                n as int,
            );
            vstd::arithmetic::div_mod::lemma_div_multiples_vanish(i64::MAX as int, n as int);
            vstd::arithmetic::div_mod::lemma_div_pos_is_pos(a as int, n as int);
        }
        ((a as u128) / (n as u128)) as i64
    } else {
        proof {
            assert((n as int) * (i64::MAX as int + 1) <= i128::MAX) by (nonlinear_arith)
                requires
                    0 <= n <= usize::MAX,
            ;
            vstd::arithmetic::div_mod::lemma_div_is_ordered(
                -(a as int),
                (n as int) * (i64::MAX as int + 1),
                n as int,
            );
            vstd::arithmetic::div_mod::lemma_div_multiples_vanish(i64::MAX as int + 1, n as int);
            vstd::arithmetic::div_mod::lemma_div_pos_is_pos(-(a as int), n as int);
        }
        let neg: u128 = (-a) as u128;
        let q: u128 = neg / (n as u128);
        (-(q as i128)) as i64
    }
}

impl LayerAccumulator {
    /// Normalizes the accumulated sums into one combined contribution:
    /// `weighted_sum / total_batch` component by component, with the total
    /// batch count carried along as the new contribution's weight.
    fn finalize(&self, layer_idx: usize) -> (g: GradientUpdate)
        requires
            acc_wf(self@),
        ensures
            g.layer_index == layer_idx,
            g.weight_grad@ == finalize_w(self@),
            g.bias_grad@ == finalize_b(self@),
            g.batch_size as int == self@.total,
    {
        let divisor: usize = if self.total_batch > 0 {
            self.total_batch
        } else {
            1
        };
        proof {
            assert(divisor as int == divisor_of(self@));
            if self.total_batch == 0 {
                assert(forall|i: int|
                    0 <= i < self@.sum_w.len() ==> #[trigger] self@.sum_w[i] == 0);
                assert(forall|i: int|
                    0 <= i < self@.sum_b.len() ==> #[trigger] self@.sum_b[i] == 0);
            }
        }
        let mut weight_grad: Vec<i64> = Vec::new();
        let mut i: usize = 0;
        while i < self.weighted_sum_w.len()
            invariant
                0 <= i <= self@.sum_w.len(),
                acc_wf(self@),
                1 <= divisor,
                divisor as int == divisor_of(self@),
                weight_grad@ =~= finalize_w(self@).subrange(0, i as int),
            decreases self@.sum_w.len() - i,
        {
            weight_grad.push(div_i128_to_i64(self.weighted_sum_w[i], divisor));
            i = i + 1;
            proof {
                assert(weight_grad@ =~= finalize_w(self@).subrange(0, i as int));
            }
        }
        let mut bias_grad: Vec<i64> = Vec::new();
        let mut j: usize = 0;
        while j < self.weighted_sum_b.len()
            invariant
                0 <= j <= self@.sum_b.len(),
                acc_wf(self@),
                1 <= divisor,
                divisor as int == divisor_of(self@),
                bias_grad@ =~= finalize_b(self@).subrange(0, j as int),
            decreases self@.sum_b.len() - j,
        {
            bias_grad.push(div_i128_to_i64(self.weighted_sum_b[j], divisor));
            j = j + 1;
            proof {
                assert(bias_grad@ =~= finalize_b(self@).subrange(0, j as int));
            }
        }
        proof {
            assert(weight_grad@ =~= finalize_w(self@));
            assert(bias_grad@ =~= finalize_b(self@));
        }
        GradientUpdate { layer_index: layer_idx, weight_grad, bias_grad, batch_size: self.total_batch }
    }

    /// Whether this accumulator has collected every required contributor:
    /// each expected child plus the node's own local contribution.
    fn has_required(&self, expected: &[String]) -> (b: bool)
        ensures
            b == required_set(expected@).subset_of(self@.contributors),
    {
        let self_id: String = String::from_str("SELF");
        if !self.contains_contributor(&self_id) {
            proof {
                assert(required_set(expected@).contains(self_contributor()));
            }
            return false;
        }
        let mut i: usize = 0;
        while i < expected.len()
            invariant
                0 <= i <= expected@.len(),
                self@.contributors.contains(self_contributor()),
                forall|j: int| 0 <= j < i ==> self@.contributors.contains(#[trigger] expected@[j]@),
            decreases expected@.len() - i,
        {
            if !self.contains_contributor(&expected[i]) {
                proof {
                    assert(id_set(expected@).contains(expected@[i as int]@));
                    assert(required_set(expected@).contains(expected@[i as int]@));
                }
                return false;
            }
            i = i + 1;
        }
        proof {
            assert forall|v: Seq<char>| required_set(expected@).contains(v)
                implies self@.contributors.contains(v) by {
                if v == self_contributor() {
                } else {
                    assert(id_set(expected@).contains(v));
                    let j = choose|j: int| 0 <= j < expected@.len() && expected@[j]@ == v;
                    assert(self@.contributors.contains(expected@[j]@));
                }
            }
        }
        true
    }
}

/// No two entries of the buffer list describe the same layer.
spec fn keys_unique(s: Seq<(usize, LayerAccumulator)>) -> bool {
    forall|i: int, j: int| 0 <= i < j < s.len() ==> (#[trigger] s[i]).0 != (#[trigger] s[j]).0
}

/// The layer-indexed map described by the buffer list.
spec fn buffers_map(s: Seq<(usize, LayerAccumulator)>) -> Map<int, AccValue>
    decreases s.len(),
{
    if s.len() == 0 {
        Map::empty()
    } else {
        buffers_map(s.drop_last()).insert(s.last().0 as int, s.last().1@)
    }
}

/// A key is in the buffer map exactly when some entry carries it.
proof fn lemma_map_dom(s: Seq<(usize, LayerAccumulator)>, k: int)
    ensures
        buffers_map(s).contains_key(k) <==> exists|i: int|
            0 <= i < s.len() && (#[trigger] s[i]).0 as int == k,
    decreases s.len(),
{
    if s.len() > 0 {
        lemma_map_dom(s.drop_last(), k);
        if buffers_map(s).contains_key(k) {
            if s.last().0 as int == k {
                assert((s[s.len() - 1]).0 as int == k);
            } else {
                let i = choose|i: int|
                    0 <= i < s.drop_last().len() && (#[trigger] s.drop_last()[i]).0 as int == k;
                assert((s[i]).0 as int == k);
            }
        }
        if exists|i: int| 0 <= i < s.len() && (#[trigger] s[i]).0 as int == k {
            let i = choose|i: int| 0 <= i < s.len() && (#[trigger] s[i]).0 as int == k;
            if i < s.len() - 1 {
                assert((s.drop_last()[i]).0 as int == k);
            }
        }
    }
}

/// With unique keys, the buffer map sends each entry's key to its value.
proof fn lemma_map_index(s: Seq<(usize, LayerAccumulator)>, i: int)
    requires
        keys_unique(s),
        0 <= i < s.len(),
    ensures
        buffers_map(s).contains_key(s[i].0 as int),
        buffers_map(s)[s[i].0 as int] == s[i].1@,
    decreases s.len(),
{
    if i == s.len() - 1 {
    } else {
        assert(keys_unique(s.drop_last()));
        lemma_map_index(s.drop_last(), i);
        assert(s.drop_last()[i] == s[i]);
        assert(s[s.len() - 1].0 != s[i].0);
    }
}

/// Appending an entry inserts its binding into the buffer map.
proof fn lemma_map_push(s: Seq<(usize, LayerAccumulator)>, p: (usize, LayerAccumulator))
    ensures
        buffers_map(s.push(p)) == buffers_map(s).insert(p.0 as int, p.1@),
{
    assert(s.push(p).drop_last() =~= s);
    assert(s.push(p).last() == p);
}

/// With unique keys, removing an entry removes exactly its binding.
proof fn lemma_map_remove(s: Seq<(usize, LayerAccumulator)>, i: int)
    requires
        keys_unique(s),
        0 <= i < s.len(),
    ensures
        buffers_map(s.remove(i)) =~= buffers_map(s).remove(s[i].0 as int),
    decreases s.len(),
{
    let k = s[i].0 as int;
    if i == s.len() - 1 {
        assert(s.remove(i) =~= s.drop_last());
        lemma_map_dom(s.drop_last(), k);
        assert(forall|j: int|
            0 <= j < s.drop_last().len() ==> (#[trigger] s.drop_last()[j]).0 != s[i].0);
        assert(!buffers_map(s.drop_last()).contains_key(k));
        assert(buffers_map(s.drop_last()) =~= buffers_map(s.drop_last()).insert(
            k,
            s[i].1@,
        ).remove(k));
    } else {
        assert(keys_unique(s.drop_last()));
        lemma_map_remove(s.drop_last(), i);
        assert(s.remove(i).drop_last() =~= s.drop_last().remove(i));
        assert(s.remove(i).last() == s.last());
        assert(s.last().0 as int != k);
        assert(buffers_map(s.remove(i)) == buffers_map(s.drop_last().remove(i)).insert(
            s.last().0 as int,
            s.last().1@,
        ));
    }
}

/// Mathematical state of the aggregator: the current epoch and, per layer,
/// the accumulator collecting this epoch's contributions.
pub ghost struct AggState {
    /// The monotonically increasing round counter.
    pub epoch: int,
    /// Per-layer accumulators, keyed by layer index.
    pub layers: Map<int, AccValue>,
}

/// The accumulator a layer currently holds, or the empty one if no
/// contribution has arrived for it yet.
pub open spec fn acc_at(s: AggState, layer: int) -> AccValue {
    if s.layers.contains_key(layer) {
        s.layers[layer]
    } else {
        empty_acc()
    }
}

/// The aggregator state after one call to `aggregate`, as a pure transition:
/// stale contributions and refused contributions leave the state untouched; a
/// duplicate contributor adds nothing; a completed layer is evicted; anything
/// else updates the layer's accumulator in place.
pub open spec fn agg_step(
    s: AggState,
    layer: int,
    w: Seq<i64>,
    b: Seq<i64>,
    batch: int,
    from: Seq<char>,
    epoch: int,
    required: Set<Seq<char>>,
) -> AggState {
    if epoch < s.epoch {
        s
    } else {
        let acc0 = acc_at(s, layer);
        let fresh = !acc0.contributors.contains(from);
        if fresh && (!shape_ok(acc0, w, b) || absorb_overflows(acc0, w, b, batch)) {
            s
        } else {
            let acc1 = if fresh {
                acc_absorb(acc0, w, b, batch, from)
            } else {
                acc0
            };
            if required.subset_of(acc1.contributors) {
                AggState { epoch: s.epoch, layers: s.layers.remove(layer) }
            } else {
                AggState { epoch: s.epoch, layers: s.layers.insert(layer, acc1) }
            }
        }
    }
}

/// Epoch-scoped reduction engine: merges per-layer contributions and reports
/// completeness, holding one accumulator per layer of the current epoch.
pub struct GradientAggregator {
    current_epoch: u64,
    buffers: Vec<(usize, LayerAccumulator)>,
}

impl View for GradientAggregator {
    type V = AggState;

    closed spec fn view(&self) -> AggState {
        AggState { epoch: self.current_epoch as int, layers: buffers_map(self.buffers@) }
    }
}

/// Locates the buffer entry for a layer, if one exists.
fn find_layer(buffers: &Vec<(usize, LayerAccumulator)>, layer: usize) -> (idx: Option<usize>)
    ensures
        match idx {
            Some(i) => i < buffers@.len() && buffers@[i as int].0 == layer,
            None => forall|j: int| 0 <= j < buffers@.len() ==> (#[trigger] buffers@[j]).0 != layer,
        },
{
    let mut i: usize = 0;
    while i < buffers.len()
        invariant
            0 <= i <= buffers@.len(),
            forall|j: int| 0 <= j < i ==> (#[trigger] buffers@[j]).0 != layer,
        decreases buffers@.len() - i,
    {
        if buffers[i].0 == layer {
            return Some(i);
        }
        i = i + 1;
    }
    None
}

impl GradientAggregator {
    /// Internal consistency: one accumulator per layer, each well formed and
    /// holding at least one contributor.
    pub closed spec fn wf(&self) -> bool {
        &&& keys_unique(self.buffers@)
        &&& forall|i: int|
            0 <= i < self.buffers@.len() ==> acc_wf((#[trigger] self.buffers@[i]).1@)
                && !self.buffers@[i].1@.contributors.is_empty()
    }

    /// A fresh aggregator at epoch zero with no buffered contributions.
    pub fn new() -> (r: Self)
        ensures
            r.wf(),
            r@ == (AggState { epoch: 0, layers: Map::<int, AccValue>::empty() }),
    {
        GradientAggregator { current_epoch: 0, buffers: Vec::new() }
    }

    /// The epoch the aggregator currently accepts contributions for.
    pub fn current_epoch(&self) -> (e: u64)
        ensures
            e as int == self@.epoch,
    {
        self.current_epoch
    }

    /// Moves to a strictly newer epoch and discards every accumulator of the
    /// old one; contributions already received are dropped, never finalized.
    /// A non-increasing epoch number changes nothing.
    pub fn advance_epoch(&mut self, new_epoch: u64)
        requires
            old(self).wf(),
        ensures
            final(self).wf(),
            new_epoch as int > old(self)@.epoch ==> final(self)@ == (AggState {
                epoch: new_epoch as int,
                layers: Map::<int, AccValue>::empty(),
            }),
            new_epoch as int <= old(self)@.epoch ==> final(self)@ == old(self)@,
    {
        if new_epoch > self.current_epoch {
            self.current_epoch = new_epoch;
            self.buffers = Vec::new();
        }
    }
}


impl GradientAggregator {
    /// Feeds one contribution into the aggregator.
    ///
    /// A contribution tagged with an epoch older than the current one is
    /// dropped as `Stale` without touching any state; the epoch is otherwise
    /// ignored, since advancing it is `advance_epoch`'s job. A contributor
    /// already recorded for the layer adds nothing (idempotence). A shape or
    /// range violation is refused before any mutation. Once the layer has
    /// collected every expected child plus the node's own `"SELF"`
    /// contribution, the accumulator is normalized, evicted and returned as
    /// `Complete`; until then the call reports `Pending`.
    pub fn aggregate(
        &mut self,
        grad: GradientUpdate,
        from_node: String,
        epoch: u64,
        expected_children: &[String],
    ) -> (r: Result<AggregationResult, AggregateError>)
        requires
            old(self).wf(),
        ensures
            final(self).wf(),
            final(self)@ == agg_step(
                old(self)@,
                grad.layer_index as int,
                grad.weight_grad@,
                grad.bias_grad@,
                grad.batch_size as int,
                from_node@,
                epoch as int,
                required_set(expected_children@),
            ),
            (r == Ok::<AggregationResult, AggregateError>(AggregationResult::Stale)) <==> (
            epoch as int) < old(self)@.epoch,
            ({
                let acc0 = acc_at(old(self)@, grad.layer_index as int);
                let fresh = !acc0.contributors.contains(from_node@);
                let live = (epoch as int) >= old(self)@.epoch;
                let fits = shape_ok(acc0, grad.weight_grad@, grad.bias_grad@);
                let overflows = absorb_overflows(
                    acc0,
                    grad.weight_grad@,
                    grad.bias_grad@,
                    grad.batch_size as int,
                );
                let acc1 = if fresh {
                    acc_absorb(
                        acc0,
                        grad.weight_grad@,
                        grad.bias_grad@,
                        grad.batch_size as int,
                        from_node@,
                    )
                } else {
                    acc0
                };
                let done = required_set(expected_children@).subset_of(acc1.contributors);
                &&& ((r == Err::<AggregationResult, AggregateError>(AggregateError::ShapeMismatch))
                    <==> live && fresh && !fits)
                &&& ((r == Err::<AggregationResult, AggregateError>(AggregateError::Overflow))
                    <==> live && fresh && fits && overflows)
                &&& (live && (!fresh || (fits && !overflows)) && done ==> match r {
                    Ok(AggregationResult::Complete(g)) => g.layer_index == grad.layer_index
                        && g.weight_grad@ == finalize_w(acc1) && g.bias_grad@ == finalize_b(acc1)
                        && g.batch_size as int == acc1.total,
                    _ => false,
                })
                &&& (live && (!fresh || (fits && !overflows)) && !done ==> r == Ok::<
                    AggregationResult,
                    AggregateError,
                >(AggregationResult::Pending))
            }),
    {
        if epoch < self.current_epoch {
            return Ok(AggregationResult::Stale);
        }
        let layer = grad.layer_index;
        let ghost key = layer as int;
        let ghost m0 = buffers_map(self.buffers@);
        match find_layer(&self.buffers, layer) {
            None => {
                proof {
                    lemma_map_dom(self.buffers@, key);
                    assert(!m0.contains_key(key));
                    assert(acc_at(self@, key) == empty_acc());
                }
                let acc = LayerAccumulator::from_first(&grad, &from_node);
                if acc.has_required(expected_children) {
                    let g = acc.finalize(layer);
                    proof {
                        assert(m0.remove(key) =~= m0);
                    }
                    Ok(AggregationResult::Complete(g))
                } else {
                    let ghost before = self.buffers@;
                    self.buffers.push((layer, acc));
                    proof {
                        lemma_map_push(before, (layer, acc));
                        assert(keys_unique(self.buffers@));
                        assert forall|i: int| 0 <= i < self.buffers@.len() implies acc_wf(
                            (#[trigger] self.buffers@[i]).1@,
                        ) && !self.buffers@[i].1@.contributors.is_empty() by {
                            if i < before.len() {
                                assert(self.buffers@[i] == before[i]);
                            }
                        }
                    }
                    Ok(AggregationResult::Pending)
                }
            },
            Some(i) => {
                proof {
                    lemma_map_index(self.buffers@, i as int);
                    lemma_map_remove(self.buffers@, i as int);
                    assert(acc_at(self@, key) == self.buffers@[i as int].1@);
                }
                let ghost acc0 = self.buffers@[i as int].1@;
                let ghost s_before = self.buffers@;
                let (k, mut acc) = self.buffers.remove(i);
                proof {
                    assert(buffers_map(self.buffers@) =~= m0.remove(key));
                    assert(keys_unique(self.buffers@)) by {
                        assert forall|x: int, y: int|
                            0 <= x < y < self.buffers@.len() implies (
                        #[trigger] self.buffers@[x]).0 != (#[trigger] self.buffers@[y]).0 by {
                            assert(self.buffers@[x] == if x < i as int {
                                s_before[x]
                            } else {
                                s_before[x + 1]
                            });
                            assert(self.buffers@[y] == if y < i as int {
                                s_before[y]
                            } else {
                                s_before[y + 1]
                            });
                        }
                    }
                    assert forall|j: int| 0 <= j < self.buffers@.len() implies (
                    #[trigger] self.buffers@[j]).0 != layer by {
                        assert(self.buffers@[j] == if j < i as int {
                            s_before[j]
                        } else {
                            s_before[j + 1]
                        });
                    }
                    assert forall|j: int| 0 <= j < self.buffers@.len() implies acc_wf(
                        (#[trigger] self.buffers@[j]).1@,
                    ) && !self.buffers@[j].1@.contributors.is_empty() by {
                        assert(self.buffers@[j] == if j < i as int {
                            s_before[j]
                        } else {
                            s_before[j + 1]
                        });
                    }
                }
                if acc.contains_contributor(&from_node) {
                    if acc.has_required(expected_children) {
                        let g = acc.finalize(layer);
                        Ok(AggregationResult::Complete(g))
                    } else {
                        let ghost before = self.buffers@;
                        self.buffers.push((k, acc));
                        proof {
                            lemma_map_push(before, (k, acc));
                            assert(buffers_map(self.buffers@) =~= m0);
                            assert(m0.insert(key, acc0) =~= m0);
                            assert(keys_unique(self.buffers@));
                            assert forall|j: int| 0 <= j < self.buffers@.len() implies acc_wf(
                                (#[trigger] self.buffers@[j]).1@,
                            ) && !self.buffers@[j].1@.contributors.is_empty() by {
                                if j < before.len() {
                                    assert(self.buffers@[j] == before[j]);
                                }
                            }
                        }
                        Ok(AggregationResult::Pending)
                    }
                } else {
                    match acc.absorb(&grad, &from_node) {
                        Err(e) => {
                            let ghost before = self.buffers@;
                            self.buffers.push((k, acc));
                            proof {
                                lemma_map_push(before, (k, acc));
                                assert(buffers_map(self.buffers@) =~= m0);
                                assert(keys_unique(self.buffers@));
                                assert forall|j: int| 0 <= j < self.buffers@.len() implies acc_wf(
                                    (#[trigger] self.buffers@[j]).1@,
                                ) && !self.buffers@[j].1@.contributors.is_empty() by {
                                    if j < before.len() {
                                        assert(self.buffers@[j] == before[j]);
                                    }
                                }
                            }
                            Err(e)
                        },
                        Ok(()) => {
                            if acc.has_required(expected_children) {
                                let g = acc.finalize(layer);
                                Ok(AggregationResult::Complete(g))
                            } else {
                                let ghost before = self.buffers@;
                                self.buffers.push((k, acc));
                                proof {
                                    lemma_map_push(before, (k, acc));
                                    assert(buffers_map(self.buffers@) =~= m0.insert(key, acc@));
                                    assert(keys_unique(self.buffers@));
                                    assert forall|j: int|
                                        0 <= j < self.buffers@.len() implies acc_wf(
                                        (#[trigger] self.buffers@[j]).1@,
                                    ) && !self.buffers@[j].1@.contributors.is_empty() by {
                                        if j < before.len() {
                                            assert(self.buffers@[j] == before[j]);
                                        }
                                    }
                                }
                                Ok(AggregationResult::Pending)
                            }
                        },
                    }
                }
            },
        }
    }
}

/// Aggregating the same `(layer, contributor)` contribution twice leaves the
/// aggregator in the same state as aggregating it once, as long as the first
/// call does not already finalize and evict the layer: the second call finds
/// the contributor recorded and adds nothing.
pub proof fn lemma_aggregate_idempotent(
    s: AggState,
    layer: int,
    w: Seq<i64>,
    b: Seq<i64>,
    batch: int,
    from: Seq<char>,
    epoch: int,
    required: Set<Seq<char>>,
)
    requires
        ({
            let acc0 = acc_at(s, layer);
            let acc1 = if !acc0.contributors.contains(from) {
                acc_absorb(acc0, w, b, batch, from)
            } else {
                acc0
            };
            !required.subset_of(acc1.contributors)
        }),
    ensures
        agg_step(agg_step(s, layer, w, b, batch, from, epoch, required), layer, w, b, batch, from,
            epoch, required) == agg_step(s, layer, w, b, batch, from, epoch, required),
{
    let s1 = agg_step(s, layer, w, b, batch, from, epoch, required);
    let s2 = agg_step(s1, layer, w, b, batch, from, epoch, required);
    if epoch < s.epoch {
    } else {
        let acc0 = acc_at(s, layer);
        let fresh = !acc0.contributors.contains(from);
        if fresh && (!shape_ok(acc0, w, b) || absorb_overflows(acc0, w, b, batch)) {
        } else {
            let acc1 = if fresh {
                acc_absorb(acc0, w, b, batch, from)
            } else {
                acc0
            };
            assert(acc1.contributors.contains(from));
            assert(s1.layers == s.layers.insert(layer, acc1));
            assert(acc_at(s1, layer) == acc1);
            assert(s2.layers == s1.layers.insert(layer, acc1));
            assert(s2.layers =~= s1.layers);
        }
    }
}

} // verus!
