//! Behavior of the unit algebra and the folding layer on concrete values.

use htp_core::affine::AffineTuple;
use htp_core::folding::HyperFolder;
use htp_core::tensor::HyperTensor;

fn unit(gain: i64, shift: &[i64]) -> AffineTuple {
    AffineTuple::new(gain, shift.to_vec())
}

#[test]
fn compose_applies_later_step_after_earlier() {
    let a = unit(2, &[1]);
    let b = unit(3, &[5]);
    // b after a: x -> 3*(2*x + 1) + 5 = 6*x + 8
    let c = b.compose(&a);
    assert_eq!(c.linear, 6);
    assert_eq!(c.translation, vec![8]);
}

#[test]
fn fold_timeline_of_three_is_the_causal_chain() {
    let a = unit(2, &[1]);
    let b = unit(3, &[5]);
    let c = unit(5, &[7]);
    let folded = HyperFolder::fold_timeline(&[a.clone(), b.clone(), c.clone()]).unwrap();
    let chain = c.compose(&b.compose(&a));
    assert_eq!(folded.linear, chain.linear);
    assert_eq!(folded.translation, chain.translation);
    assert_eq!(folded.linear, 30);
    assert_eq!(folded.translation, vec![47]);
}

#[test]
fn fold_timeline_of_empty_and_single() {
    assert!(HyperFolder::fold_timeline(&[]).is_none());
    let a = unit(9, &[4, -2]);
    let folded = HyperFolder::fold_timeline(&[a]).unwrap();
    assert_eq!(folded.linear, 9);
    assert_eq!(folded.translation, vec![4, -2]);
}

#[test]
fn fold_context_is_permutation_invariant() {
    let a = unit(2, &[4]);
    let b = unit(4, &[8]);
    let c = unit(6, &[12]);
    let one = HyperFolder::fold_context(&[a.clone(), b.clone(), c.clone()]).unwrap();
    let two = HyperFolder::fold_context(&[c, a, b]).unwrap();
    assert_eq!(one.linear, two.linear);
    assert_eq!(one.translation, two.translation);
    assert_eq!(one.linear, 4);
    assert_eq!(one.translation, vec![8]);
}

#[test]
fn fold_context_of_empty_is_absent() {
    assert!(HyperFolder::fold_context(&[]).is_none());
}

#[test]
fn fold_layers_matches_fold_timeline() {
    let a = unit(1, &[2]);
    let b = unit(2, &[3]);
    let layered = HyperFolder::fold_layers(&[a.clone(), b.clone()]).unwrap();
    let timed = HyperFolder::fold_timeline(&[a, b]).unwrap();
    assert_eq!(layered.linear, timed.linear);
    assert_eq!(layered.translation, timed.translation);
}

#[test]
fn commutative_merge_is_the_two_branch_mean() {
    let a = unit(2, &[10]);
    let b = unit(4, &[20]);
    let m = a.commutative_merge(&b);
    assert_eq!(m.linear, 3);
    assert_eq!(m.translation, vec![15]);
    let m2 = b.commutative_merge(&a);
    assert_eq!(m2.linear, 3);
    assert_eq!(m2.translation, vec![15]);
}

#[test]
fn solve_bias_recovers_the_missing_translation() {
    // target = 3 * input + b  =>  b = target - 3 * input
    let input = vec![2i64, -1];
    let target = vec![10i64, 4];
    let b = AffineTuple::solve_bias(&input, &target, 3);
    assert_eq!(b, vec![4, 7]);
    // check: 3 * input + b == target, component-wise
    for i in 0..2 {
        assert_eq!(3 * input[i] + b[i], target[i]);
    }
}

#[test]
fn scale_down_rounds_toward_zero() {
    let u = unit(-7, &[7, -7, 9]);
    let s = u.scale_down(2);
    assert_eq!(s.linear, -3);
    assert_eq!(s.translation, vec![3, -3, 4]);
}

#[test]
fn tree_folding_with_trace_matches_sequential_folding() {
    let units: Vec<AffineTuple> = (1..=5).map(|k| unit(k, &[k * 10, -k])).collect();
    let traced = HyperTensor::forward(&units, true);
    let fast = HyperTensor::forward(&units, false);
    assert_eq!(traced.root.linear, fast.root.linear);
    assert_eq!(traced.root.translation, fast.root.translation);
    assert!(fast.trace.is_none());
    assert_eq!(traced.complexity(), 9); // 5 leaves + 4 recorded compositions
    assert_eq!(fast.complexity(), 0);
}

#[test]
fn forward_of_empty_input_is_identity() {
    let t = HyperTensor::forward(&[], true);
    assert_eq!(t.root.linear, 1);
    assert!(t.root.translation.is_empty());
    assert!(t.trace.is_none());
}
