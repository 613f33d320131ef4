//! Wrap-around arithmetic on `i64` and the ring laws it satisfies.
//!
//! Every numeric component of an algebraic unit lives in `i64` with
//! wrap-around semantics, so the unit operations form genuine algebraic
//! structures (associative composition, a commutative additive monoid) with
//! no side conditions about overflow. The lemmas here establish those laws
//! once; the unit and folding modules build on them.

use vstd::prelude::*;
use vstd::arithmetic::div_mod::{
    lemma_add_mod_noop, lemma_mod_twice, lemma_mul_mod_noop_right, lemma_small_mod,
    lemma_mod_add_multiples_vanish,
};

verus! {

/// The size of the `i64` value space.
pub open spec fn ring_size() -> int {
    0x1_0000_0000_0000_0000
}

/// The canonical `i64` representative of an unbounded integer, i.e. the value
/// congruent to `x` modulo `2^64` that lies in `i64`'s range.
pub open spec fn crop64(x: int) -> i64 {
    if x % ring_size() > i64::MAX as int {
        (x % ring_size() - ring_size()) as i64
    } else {
        (x % ring_size()) as i64
    }
}

/// Wrap-around addition.
pub open spec fn wadd(a: i64, b: i64) -> i64 {
    crop64(a + b)
}

/// Wrap-around subtraction.
pub open spec fn wsub(a: i64, b: i64) -> i64 {
    crop64(a - b)
}

/// Wrap-around multiplication.
pub open spec fn wmul(a: i64, b: i64) -> i64 {
    crop64(a * b)
}

/// `crop64` only looks at the residue of its argument.
pub proof fn lemma_crop64_congruent(x: int, y: int)
    requires
        x % ring_size() == y % ring_size(),
    ensures
        crop64(x) == crop64(y),
{
}

/// Cropping does not change the residue.
pub proof fn lemma_crop64_residue(x: int)
    ensures
        (crop64(x) as int) % ring_size() == x % ring_size(),
{
    let m = ring_size();
    let r = x % m;
    lemma_mod_twice(x, m);
    if r > i64::MAX as int {
        lemma_mod_add_multiples_vanish(r - m, m);
    }
}

/// A value already in `i64`'s range is its own canonical representative.
pub proof fn lemma_crop64_identity(v: i64)
    ensures
        crop64(v as int) == v,
{
    let m = ring_size();
    if v >= 0 {
        lemma_small_mod(v as nat, m as nat);
    } else {
        lemma_mod_add_multiples_vanish(v as int, m);
        lemma_small_mod((v + m) as nat, m as nat);
    }
}

/// The standard library's wrapping addition computes the canonical
/// representative of the exact sum.
pub proof fn lemma_wrapping_add_is_wadd(a: i64, b: i64)
    ensures
        vstd::wrapping::i64_specs::wrapping_add(a, b) == wadd(a, b),
{
    let m = ring_size();
    let s = a + b;
    if s > i64::MAX as int {
        lemma_small_mod(s as nat, m as nat);
    } else if s < i64::MIN as int {
        lemma_mod_add_multiples_vanish(s, m);
        lemma_small_mod((s + m) as nat, m as nat);
    } else {
        lemma_crop64_identity(s as i64);
    }
}

/// The standard library's wrapping subtraction computes the canonical
/// representative of the exact difference.
pub proof fn lemma_wrapping_sub_is_wsub(a: i64, b: i64)
    ensures
        vstd::wrapping::i64_specs::wrapping_sub(a, b) == wsub(a, b),
{
    let m = ring_size();
    let s = a - b;
    if s > i64::MAX as int {
        lemma_small_mod(s as nat, m as nat);
    } else if s < i64::MIN as int {
        lemma_mod_add_multiples_vanish(s, m);
        lemma_small_mod((s + m) as nat, m as nat);
    } else {
        lemma_crop64_identity(s as i64);
    }
}

/// The standard library's wrapping multiplication computes the canonical
/// representative of the exact product.
pub proof fn lemma_wrapping_mul_is_wmul(a: i64, b: i64)
    ensures
        vstd::wrapping::i64_specs::wrapping_mul(a, b) == wmul(a, b),
{
}

/// Wrap-around addition is commutative.
pub proof fn lemma_wadd_commutative(a: i64, b: i64)
    ensures
        wadd(a, b) == wadd(b, a),
{
}

/// Wrap-around addition is associative.
pub proof fn lemma_wadd_associative(a: i64, b: i64, c: i64)
    ensures
        wadd(wadd(a, b), c) == wadd(a, wadd(b, c)),
{
    let m = ring_size();
    lemma_crop64_residue(a + b);
    lemma_add_mod_noop(crop64(a + b) as int, c as int, m);
    lemma_add_mod_noop(a + b, c as int, m);
    lemma_crop64_residue(b + c);
    lemma_add_mod_noop(a as int, crop64(b + c) as int, m);
    lemma_add_mod_noop(a as int, b + c, m);
    lemma_crop64_congruent(crop64(a + b) + c, a + (b + c));
    lemma_crop64_congruent(a + crop64(b + c), a + (b + c));
}

/// Zero is neutral for wrap-around addition.
pub proof fn lemma_wadd_zero(a: i64)
    ensures
        wadd(a, 0) == a,
{
    lemma_crop64_identity(a);
}

/// Wrap-around multiplication is associative.
pub proof fn lemma_wmul_associative(a: i64, b: i64, c: i64)
    ensures
        wmul(wmul(a, b), c) == wmul(a, wmul(b, c)),
{
    let m = ring_size();
    lemma_crop64_residue(a * b);
    vstd::arithmetic::div_mod::lemma_mul_mod_noop_left(crop64(a * b) as int, c as int, m);
    vstd::arithmetic::div_mod::lemma_mul_mod_noop_left(a * b, c as int, m);
    lemma_crop64_residue(b * c);
    lemma_mul_mod_noop_right(a as int, crop64(b * c) as int, m);
    lemma_mul_mod_noop_right(a as int, b * c, m);
    vstd::arithmetic::mul::lemma_mul_is_associative(a as int, b as int, c as int);
    lemma_crop64_congruent(crop64(a * b) * c, (a * b) * c);
    lemma_crop64_congruent(a * crop64(b * c), a * (b * c));
}

/// One is neutral for wrap-around multiplication.
pub proof fn lemma_wmul_one(a: i64)
    ensures
        wmul(a, 1) == a,
        wmul(1, a) == a,
{
    lemma_crop64_identity(a);
}

/// Wrap-around multiplication distributes over wrap-around addition.
pub proof fn lemma_wmul_distributes(a: i64, b: i64, c: i64)
    ensures
        wmul(a, wadd(b, c)) == wadd(wmul(a, b), wmul(a, c)),
{
    let m = ring_size();
    lemma_crop64_residue(b + c);
    lemma_mul_mod_noop_right(a as int, crop64(b + c) as int, m);
    lemma_mul_mod_noop_right(a as int, b + c, m);
    vstd::arithmetic::mul::lemma_mul_is_distributive_add(a as int, b as int, c as int);
    lemma_crop64_residue(a * b);
    lemma_crop64_residue(a * c);
    lemma_add_mod_noop(crop64(a * b) as int, crop64(a * c) as int, m);
    lemma_add_mod_noop(a * b, a * c, m);
    lemma_crop64_congruent(a * crop64(b + c), a * b + a * c);
    lemma_crop64_congruent(crop64(a * b) + crop64(a * c), a * b + a * c);
}

/// Wrap-around addition on `i64`, specified exactly.
pub fn wrap_add(a: i64, b: i64) -> (r: i64)
    ensures
        r == wadd(a, b),
{
    proof {
        lemma_wrapping_add_is_wadd(a, b);
    }
    a.wrapping_add(b)
}

/// Wrap-around subtraction on `i64`, specified exactly.
pub fn wrap_sub(a: i64, b: i64) -> (r: i64)
    ensures
        r == wsub(a, b),
{
    proof {
        lemma_wrapping_sub_is_wsub(a, b);
    }
    a.wrapping_sub(b)
}

/// Wrap-around multiplication on `i64`, specified exactly.
pub fn wrap_mul(a: i64, b: i64) -> (r: i64)
    ensures
        r == wmul(a, b),
{
    proof {
        lemma_wrapping_mul_is_wmul(a, b);
    }
    a.wrapping_mul(b)
}

/// Signed division rounding toward zero, as the hardware computes it; used to
/// normalize accumulated sums by a positive count.
pub open spec fn div_toward_zero(a: int, n: int) -> int {
    if a >= 0 {
        a / n
    } else {
        -((-a) / n)
    }
}

/// Quotients by a positive divisor never grow in magnitude.
pub proof fn lemma_div_toward_zero_bounds(a: int, n: int, bound: int)
    requires
        n >= 1,
        -bound <= a <= bound,
        0 <= bound,
    ensures
        -bound <= div_toward_zero(a, n) <= bound,
{
    if a >= 0 {
        vstd::arithmetic::div_mod::lemma_div_is_ordered(a, bound, n);
        vstd::arithmetic::div_mod::lemma_div_pos_is_pos(a, n);
        vstd::arithmetic::div_mod::lemma_div_nonincreasing(bound, n);
    } else {
        vstd::arithmetic::div_mod::lemma_div_is_ordered(-a, bound, n);
        vstd::arithmetic::div_mod::lemma_div_pos_is_pos(-a, n);
        vstd::arithmetic::div_mod::lemma_div_nonincreasing(bound, n);
    }
}

/// Division of an `i64` value by a positive count, rounding toward zero.
pub fn div_i64(a: i64, n: usize) -> (r: i64)
    requires
        n >= 1,
    ensures
        r == div_toward_zero(a as int, n as int),
{
    proof {
        lemma_div_toward_zero_bounds(a as int, n as int, i64::MAX as int + 1);
    }
    if a >= 0 {
        ((a as u64) / (n as u64)) as i64
    } else {
        let neg: u64 = (-(a as i128)) as u64;
        let q: u64 = neg / (n as u64);
        (-(q as i128)) as i64
    }
}

} // verus!
