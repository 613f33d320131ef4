//! The algebraic unit combined by the folding and aggregation layers.
//!
//! An `AffineTuple` is the transformation `x -> linear * x + translation`
//! with a scalar gain and a translation vector, over wrap-around `i64`
//! arithmetic. It carries the two algebraic structures the distributed fold
//! relies on: `compose` is associative but not commutative (the causal
//! chain), while `add_components` with the all-zero tuple forms a commutative
//! monoid (the branch-merge sum).

use vstd::prelude::*;
use crate::wrap::{
    wadd, wmul, wsub, div_toward_zero, wrap_add, wrap_mul, wrap_sub, div_i64,
    lemma_wadd_associative, lemma_wadd_commutative, lemma_wadd_zero, lemma_wmul_associative,
    lemma_wmul_distributes, lemma_wmul_one, lemma_crop64_identity,
};

verus! {

/// Mathematical value of an [`AffineTuple`]: a gain and a translation vector.
pub ghost struct AffineValue {
    pub linear: i64,
    pub translation: Seq<i64>,
}

impl AffineValue {
    /// Length of the translation vector.
    pub open spec fn dim(self) -> nat {
        self.translation.len()
    }
}

/// `next` applied after `prev`:
/// `next(prev(x)) = (next.linear * prev.linear) * x + (next.linear * prev.translation + next.translation)`.
pub open spec fn compose_value(next: AffineValue, prev: AffineValue) -> AffineValue {
    AffineValue {
        linear: wmul(next.linear, prev.linear),
        translation: Seq::new(
            prev.translation.len(),
            |i: int| wadd(wmul(next.linear, prev.translation[i]), next.translation[i]),
        ),
    }
}

/// Component-wise sum of two units.
pub open spec fn add_value(a: AffineValue, b: AffineValue) -> AffineValue {
    AffineValue {
        linear: wadd(a.linear, b.linear),
        translation: Seq::new(a.translation.len(), |i: int| wadd(a.translation[i], b.translation[i])),
    }
}

/// Component-wise scaling of a unit by an integer factor.
pub open spec fn scale_value(u: AffineValue, factor: i64) -> AffineValue {
    AffineValue {
        linear: wmul(u.linear, factor),
        translation: Seq::new(u.translation.len(), |i: int| wmul(u.translation[i], factor)),
    }
}

/// Component-wise division of a unit by a positive count, rounding toward
/// zero; the normalization step of a sum/count merge.
pub open spec fn shrink_value(u: AffineValue, n: int) -> AffineValue {
    AffineValue {
        linear: div_toward_zero(u.linear as int, n) as i64,
        translation: Seq::new(u.translation.len(), |i: int| div_toward_zero(u.translation[i] as int, n) as i64),
    }
}

/// The neutral element of component-wise addition.
pub open spec fn zero_value(dim: nat) -> AffineValue {
    AffineValue { linear: 0, translation: Seq::new(dim, |i: int| 0i64) }
}

/// The neutral element of composition.
pub open spec fn identity_value(dim: nat) -> AffineValue {
    AffineValue { linear: 1, translation: Seq::new(dim, |i: int| 0i64) }
}

/// The basic transformation unit folded by this crate: `x -> linear * x +
/// translation` over wrap-around `i64` arithmetic.
pub struct AffineTuple {
    /// Scalar gain applied to the input.
    pub linear: i64,
    /// Offset added after the gain.
    pub translation: Vec<i64>,
}

impl View for AffineTuple {
    type V = AffineValue;

    open spec fn view(&self) -> AffineValue {
        AffineValue { linear: self.linear, translation: self.translation@ }
    }
}

impl Clone for AffineTuple {
    fn clone(&self) -> (r: Self)
        ensures
            r@ == self@,
    {
        AffineTuple { linear: self.linear, translation: self.translation.clone() }
    }
}

/// Builds the translation vector of length `dim` whose entries are all zero.
fn zero_vec(dim: usize) -> (r: Vec<i64>)
    ensures
        r@ == Seq::new(dim as nat, |i: int| 0i64),
{
    let mut r: Vec<i64> = Vec::new();
    let mut i: usize = 0;
    while i < dim
        invariant
            0 <= i <= dim,
            r@ =~= Seq::new(i as nat, |j: int| 0i64),
        decreases dim - i,
    {
        r.push(0);
        i = i + 1;
        proof {
            assert(r@ =~= Seq::new(i as nat, |j: int| 0i64));
        }
    }
    r
}

impl AffineTuple {
    /// Number of translation components.
    pub fn dimension(&self) -> (d: usize)
        ensures
            d == self@.dim(),
    {
        self.translation.len()
    }

    /// The no-op transformation: unit gain, zero offset.
    pub fn identity(dim: usize) -> (r: Self)
        ensures
            r@ == identity_value(dim as nat),
    {
        let r = AffineTuple { linear: 1, translation: zero_vec(dim) };
        proof {
            assert(r@.translation =~= identity_value(dim as nat).translation);
        }
        r
    }

    /// The neutral element of component-wise addition: zero gain, zero offset.
    pub fn zeros(dim: usize) -> (r: Self)
        ensures
            r@ == zero_value(dim as nat),
    {
        let r = AffineTuple { linear: 0, translation: zero_vec(dim) };
        proof {
            assert(r@.translation =~= zero_value(dim as nat).translation);
        }
        r
    }

    /// Packs a gain and a translation vector into a unit.
    pub fn new(linear: i64, translation: Vec<i64>) -> (r: Self)
        ensures
            r@ == (AffineValue { linear: linear, translation: translation@ }),
    {
        AffineTuple { linear, translation }
    }

    /// Causal composition: `self` is the later step, `prev` the earlier one.
    /// Associative (see [`lemma_compose_associative`]) but not commutative,
    /// which is exactly what lets a timeline be folded in parallel chunks
    /// without reordering cause and effect.
    pub fn compose(&self, prev: &Self) -> (r: Self)
        requires
            self@.dim() == prev@.dim(),
        ensures
            r@ == compose_value(self@, prev@),
    {
        let dim = prev.translation.len();
        let mut translation: Vec<i64> = Vec::new();
        let mut i: usize = 0;
        while i < dim
            invariant
                0 <= i <= dim,
                dim == prev.translation@.len(),
                dim == self.translation@.len(),
                translation@ =~= Seq::new(
                    i as nat,
                    |j: int| wadd(wmul(self.linear, prev.translation@[j]), self.translation@[j]),
                ),
            decreases dim - i,
        {
            let propagated = wrap_mul(self.linear, prev.translation[i]);
            translation.push(wrap_add(propagated, self.translation[i]));
            i = i + 1;
            proof {
                assert(translation@ =~= Seq::new(
                    i as nat,
                    |j: int| wadd(wmul(self.linear, prev.translation@[j]), self.translation@[j]),
                ));
            }
        }
        let r = AffineTuple { linear: wrap_mul(self.linear, prev.linear), translation };
        proof {
            assert(r@.translation =~= compose_value(self@, prev@).translation);
        }
        r
    }

    /// Pure component-wise addition, the merge step of the sum/count monoid.
    /// No averaging happens here; averaging is deferred to one final
    /// normalization so that merging stays associative.
    pub fn add_components(&self, other: &Self) -> (r: Self)
        requires
            self@.dim() == other@.dim(),
        ensures
            r@ == add_value(self@, other@),
    {
        let dim = self.translation.len();
        let mut translation: Vec<i64> = Vec::new();
        let mut i: usize = 0;
        while i < dim
            invariant
                0 <= i <= dim,
                dim == self.translation@.len(),
                dim == other.translation@.len(),
                translation@ =~= Seq::new(
                    i as nat,
                    |j: int| wadd(self.translation@[j], other.translation@[j]),
                ),
            decreases dim - i,
        {
            translation.push(wrap_add(self.translation[i], other.translation[i]));
            i = i + 1;
            proof {
                assert(translation@ =~= Seq::new(
                    i as nat,
                    |j: int| wadd(self.translation@[j], other.translation@[j]),
                ));
            }
        }
        let r = AffineTuple { linear: wrap_add(self.linear, other.linear), translation };
        proof {
            assert(r@.translation =~= add_value(self@, other@).translation);
        }
        r
    }

    /// Component-wise scaling by an integer factor.
    pub fn scale(&self, factor: i64) -> (r: Self)
        ensures
            r@ == scale_value(self@, factor),
    {
        let dim = self.translation.len();
        let mut translation: Vec<i64> = Vec::new();
        let mut i: usize = 0;
        while i < dim
            invariant
                0 <= i <= dim,
                dim == self.translation@.len(),
                translation@ =~= Seq::new(i as nat, |j: int| wmul(self.translation@[j], factor)),
            decreases dim - i,
        {
            translation.push(wrap_mul(self.translation[i], factor));
            i = i + 1;
            proof {
                assert(translation@ =~= Seq::new(
                    i as nat,
                    |j: int| wmul(self.translation@[j], factor),
                ));
            }
        }
        let r = AffineTuple { linear: wrap_mul(self.linear, factor), translation };
        proof {
            assert(r@.translation =~= scale_value(self@, factor).translation);
        }
        r
    }

    /// Component-wise division by a positive count, rounding toward zero:
    /// the final `sum / count` normalization of a branch merge.
    pub fn scale_down(&self, count: usize) -> (r: Self)
        requires
            count >= 1,
        ensures
            r@ == shrink_value(self@, count as int),
    {
        let dim = self.translation.len();
        let mut translation: Vec<i64> = Vec::new();
        let mut i: usize = 0;
        while i < dim
            invariant
                1 <= count,
                0 <= i <= dim,
                dim == self.translation@.len(),
                translation@ =~= Seq::new(
                    i as nat,
                    |j: int| div_toward_zero(self.translation@[j] as int, count as int) as i64,
                ),
            decreases dim - i,
        {
            translation.push(div_i64(self.translation[i], count));
            i = i + 1;
            proof {
                assert(translation@ =~= Seq::new(
                    i as nat,
                    |j: int| div_toward_zero(self.translation@[j] as int, count as int) as i64,
                ));
            }
        }
        let r = AffineTuple { linear: div_i64(self.linear, count), translation };
        proof {
            assert(r@.translation =~= shrink_value(self@, count as int).translation);
        }
        r
    }

    /// Binary context merge: the exact average of two branches, computed as
    /// sum-then-normalize so it agrees with the monoid fold of two elements.
    pub fn commutative_merge(&self, other: &Self) -> (r: Self)
        requires
            self@.dim() == other@.dim(),
        ensures
            r@ == shrink_value(add_value(self@, other@), 2),
    {
        let sum = self.add_components(other);
        sum.scale_down(2)
    }

    /// One-shot bias solver: the translation `b` with `target = fixed_linear
    /// * input + b`, component by component.
    pub fn solve_bias(input: &Vec<i64>, target: &Vec<i64>, fixed_linear: i64) -> (r: Vec<i64>)
        requires
            input@.len() == target@.len(),
        ensures
            r@ == Seq::new(input@.len(), |i: int| wsub(target@[i], wmul(fixed_linear, input@[i]))),
    {
        let dim = input.len();
        let mut r: Vec<i64> = Vec::new();
        let mut i: usize = 0;
        while i < dim
            invariant
                0 <= i <= dim,
                dim == input@.len(),
                dim == target@.len(),
                r@ =~= Seq::new(i as nat, |j: int| wsub(target@[j], wmul(fixed_linear, input@[j]))),
            decreases dim - i,
        {
            r.push(wrap_sub(target[i], wrap_mul(fixed_linear, input[i])));
            i = i + 1;
            proof {
                assert(r@ =~= Seq::new(
                    i as nat,
                    |j: int| wsub(target@[j], wmul(fixed_linear, input@[j])),
                ));
            }
        }
        r
    }
}

/// Composition of units is associative: folding a causal chain in any
/// parenthesization that keeps relative order yields the identical unit.
pub proof fn lemma_compose_associative(a: AffineValue, b: AffineValue, c: AffineValue)
    requires
        a.dim() == b.dim(),
        b.dim() == c.dim(),
    ensures
        compose_value(compose_value(a, b), c) == compose_value(a, compose_value(b, c)),
{
    lemma_wmul_associative(a.linear, b.linear, c.linear);
    let lhs = compose_value(compose_value(a, b), c);
    let rhs = compose_value(a, compose_value(b, c));
    assert forall|i: int| 0 <= i < c.translation.len() implies lhs.translation[i]
        == rhs.translation[i] by {
        let ct = c.translation[i];
        let bt = b.translation[i];
        let at = a.translation[i];
        // lhs: (a.l * b.l) * ct + (a.l * bt + at)
        // rhs: a.l * (b.l * ct + bt) + at
        lemma_wmul_distributes(a.linear, wmul(b.linear, ct), bt);
        lemma_wmul_associative(a.linear, b.linear, ct);
        lemma_wadd_associative(wmul(wmul(a.linear, b.linear), ct), wmul(a.linear, bt), at);
    }
    assert(lhs.translation =~= rhs.translation);
}

/// Component-wise addition of units is commutative.
pub proof fn lemma_add_commutative(a: AffineValue, b: AffineValue)
    requires
        a.dim() == b.dim(),
    ensures
        add_value(a, b) == add_value(b, a),
{
    lemma_wadd_commutative(a.linear, b.linear);
    assert forall|i: int| 0 <= i < a.translation.len() implies add_value(a, b).translation[i]
        == add_value(b, a).translation[i] by {
        lemma_wadd_commutative(a.translation[i], b.translation[i]);
    }
    assert(add_value(a, b).translation =~= add_value(b, a).translation);
}

/// Component-wise addition of units is associative.
pub proof fn lemma_add_associative(a: AffineValue, b: AffineValue, c: AffineValue)
    requires
        a.dim() == b.dim(),
        b.dim() == c.dim(),
    ensures
        add_value(add_value(a, b), c) == add_value(a, add_value(b, c)),
{
    lemma_wadd_associative(a.linear, b.linear, c.linear);
    assert forall|i: int| 0 <= i < a.translation.len() implies add_value(add_value(a, b), c).translation[i]
        == add_value(a, add_value(b, c)).translation[i] by {
        lemma_wadd_associative(a.translation[i], b.translation[i], c.translation[i]);
    }
    assert(add_value(add_value(a, b), c).translation =~= add_value(a, add_value(b, c)).translation);
}

/// The all-zero unit is neutral for component-wise addition.
pub proof fn lemma_add_zero(a: AffineValue)
    ensures
        add_value(a, zero_value(a.dim())) == a,
{
    lemma_wadd_zero(a.linear);
    assert forall|i: int| 0 <= i < a.translation.len() implies add_value(
        a,
        zero_value(a.dim()),
    ).translation[i] == a.translation[i] by {
        lemma_wadd_zero(a.translation[i]);
    }
    assert(add_value(a, zero_value(a.dim())).translation =~= a.translation);
}

/// The identity unit is neutral for composition on both sides.
pub proof fn lemma_compose_identity(a: AffineValue)
    ensures
        compose_value(a, identity_value(a.dim())) == a,
        compose_value(identity_value(a.dim()), a) == a,
{
    let d = a.dim();
    lemma_wmul_one(a.linear);
    assert forall|i: int| 0 <= i < a.translation.len() implies compose_value(
        a,
        identity_value(d),
    ).translation[i] == a.translation[i] by {
        assert(wmul(a.linear, 0) == 0) by {
            assert(a.linear * 0 == 0);
            lemma_crop64_identity(0);
        }
        lemma_wadd_commutative(0, a.translation[i]);
        lemma_wadd_zero(a.translation[i]);
    }
    assert(compose_value(a, identity_value(d)).translation =~= a.translation);
    assert forall|i: int| 0 <= i < a.translation.len() implies compose_value(
        identity_value(d),
        a,
    ).translation[i] == a.translation[i] by {
        lemma_wmul_one(a.translation[i]);
        lemma_wadd_zero(wmul(1, a.translation[i]));
    }
    assert(compose_value(identity_value(d), a).translation =~= a.translation);
}

} // verus!
