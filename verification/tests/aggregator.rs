//! Behavior of the epoch-gated gradient aggregator on concrete runs.

use htp_core::sync::{AggregateError, AggregationResult, GradientAggregator, GradientUpdate};

fn grad(layer: usize, w: &[i64], b: &[i64], batch: usize) -> GradientUpdate {
    GradientUpdate {
        layer_index: layer,
        weight_grad: w.to_vec(),
        bias_grad: b.to_vec(),
        batch_size: batch,
    }
}

fn children(names: &[&str]) -> Vec<String> {
    names.iter().map(|s| s.to_string()).collect()
}

#[test]
fn completeness_requires_children_and_self() {
    let mut agg = GradientAggregator::new();
    let expected = children(&["w1", "w2"]);
    let r1 = agg
        .aggregate(grad(0, &[10, 20], &[1], 4), "w1".to_string(), 0, &expected)
        .unwrap();
    assert!(matches!(r1, AggregationResult::Pending));
    let r2 = agg
        .aggregate(grad(0, &[30, -6], &[3], 2), "w2".to_string(), 0, &expected)
        .unwrap();
    assert!(matches!(r2, AggregationResult::Pending));
    let r3 = agg
        .aggregate(grad(0, &[5, 7], &[2], 4), "SELF".to_string(), 0, &expected)
        .unwrap();
    match r3 {
        AggregationResult::Complete(out) => {
            assert_eq!(out.layer_index, 0);
            assert_eq!(out.batch_size, 10); // 4 + 2 + 4
            // weighted sums [120, 96] and [18], divided by the total batch
            assert_eq!(out.weight_grad, vec![12, 9]);
            assert_eq!(out.bias_grad, vec![1]);
        }
        _ => panic!("expected the third contributor to complete the layer"),
    }
}

#[test]
fn duplicate_contribution_is_ignored() {
    let mut agg = GradientAggregator::new();
    let expected = children(&["w1"]);
    let r1 = agg
        .aggregate(grad(3, &[8], &[2], 5), "w1".to_string(), 0, &expected)
        .unwrap();
    assert!(matches!(r1, AggregationResult::Pending));
    // the same (layer, contributor) pair again: absorbed nothing
    let r2 = agg
        .aggregate(grad(3, &[8], &[2], 5), "w1".to_string(), 0, &expected)
        .unwrap();
    assert!(matches!(r2, AggregationResult::Pending));
    let r3 = agg
        .aggregate(grad(3, &[4], &[6], 5), "SELF".to_string(), 0, &expected)
        .unwrap();
    match r3 {
        AggregationResult::Complete(out) => {
            // w1 counted once: totals are 5 + 5, not 5 + 5 + 5
            assert_eq!(out.batch_size, 10);
            assert_eq!(out.weight_grad, vec![6]); // (8*5 + 4*5) / 10
            assert_eq!(out.bias_grad, vec![4]); // (2*5 + 6*5) / 10
        }
        _ => panic!("expected completion after SELF"),
    }
}

#[test]
fn stale_epoch_is_dropped_without_touching_state() {
    let mut agg = GradientAggregator::new();
    let expected = children(&["w1"]);
    agg.advance_epoch(5);
    let r1 = agg
        .aggregate(grad(0, &[2], &[1], 1), "w1".to_string(), 5, &expected)
        .unwrap();
    assert!(matches!(r1, AggregationResult::Pending));
    // an epoch-4 contribution is stale and must not disturb epoch 5
    let r2 = agg
        .aggregate(grad(0, &[100], &[100], 100), "SELF".to_string(), 4, &expected)
        .unwrap();
    assert!(matches!(r2, AggregationResult::Stale));
    let r3 = agg
        .aggregate(grad(0, &[4], &[3], 1), "SELF".to_string(), 5, &expected)
        .unwrap();
    match r3 {
        AggregationResult::Complete(out) => {
            assert_eq!(out.batch_size, 2);
            assert_eq!(out.weight_grad, vec![3]); // (2 + 4) / 2
            assert_eq!(out.bias_grad, vec![2]); // (1 + 3) / 2
        }
        _ => panic!("expected epoch-5 state to be untouched by the stale packet"),
    }
}

#[test]
fn advancing_the_epoch_discards_partial_state() {
    let mut agg = GradientAggregator::new();
    let expected = children(&["w1"]);
    let r1 = agg
        .aggregate(grad(0, &[50], &[50], 50), "w1".to_string(), 0, &expected)
        .unwrap();
    assert!(matches!(r1, AggregationResult::Pending));
    agg.advance_epoch(1);
    assert_eq!(agg.current_epoch(), 1);
    // the old partial contribution is gone: a fresh pair completes alone
    let _ = agg
        .aggregate(grad(0, &[2], &[2], 1), "w1".to_string(), 1, &expected)
        .unwrap();
    let r2 = agg
        .aggregate(grad(0, &[4], &[4], 1), "SELF".to_string(), 1, &expected)
        .unwrap();
    match r2 {
        AggregationResult::Complete(out) => {
            assert_eq!(out.batch_size, 2);
            assert_eq!(out.weight_grad, vec![3]);
        }
        _ => panic!("expected completion from the post-advance contributions only"),
    }
}

#[test]
fn self_alone_completes_when_no_children_expected() {
    let mut agg = GradientAggregator::new();
    let r = agg
        .aggregate(grad(7, &[9, 3], &[6], 3), "SELF".to_string(), 0, &[])
        .unwrap();
    match r {
        AggregationResult::Complete(out) => {
            assert_eq!(out.layer_index, 7);
            assert_eq!(out.batch_size, 3);
            // a single contributor's weighted average is its own gradient
            assert_eq!(out.weight_grad, vec![9, 3]);
            assert_eq!(out.bias_grad, vec![6]);
        }
        _ => panic!("a node with no children owes only its own gradient"),
    }
}

#[test]
fn shape_mismatch_is_refused_before_mutating() {
    let mut agg = GradientAggregator::new();
    let expected = children(&["w1"]);
    let _ = agg
        .aggregate(grad(0, &[1, 2], &[3], 1), "w1".to_string(), 0, &expected)
        .unwrap();
    let err = agg
        .aggregate(grad(0, &[1, 2, 3], &[3], 1), "SELF".to_string(), 0, &expected)
        .unwrap_err();
    assert_eq!(err, AggregateError::ShapeMismatch);
    // the accumulator survived intact: a well-shaped SELF still completes
    let r = agg
        .aggregate(grad(0, &[3, 4], &[1], 1), "SELF".to_string(), 0, &expected)
        .unwrap();
    match r {
        AggregationResult::Complete(out) => {
            assert_eq!(out.batch_size, 2);
            assert_eq!(out.weight_grad, vec![2, 3]);
        }
        _ => panic!("expected completion after the refused packet"),
    }
}

#[test]
fn batch_count_overflow_is_refused() {
    let mut agg = GradientAggregator::new();
    let expected = children(&["w1"]);
    let _ = agg
        .aggregate(grad(0, &[1], &[1], usize::MAX), "w1".to_string(), 0, &expected)
        .unwrap();
    let err = agg
        .aggregate(grad(0, &[1], &[1], 1), "SELF".to_string(), 0, &expected)
        .unwrap_err();
    assert_eq!(err, AggregateError::Overflow);
}

#[test]
fn zero_batch_contributions_average_to_zero() {
    let mut agg = GradientAggregator::new();
    let r = agg
        .aggregate(grad(0, &[5], &[5], 0), "SELF".to_string(), 0, &[])
        .unwrap();
    match r {
        AggregationResult::Complete(out) => {
            assert_eq!(out.batch_size, 0);
            assert_eq!(out.weight_grad, vec![0]);
            assert_eq!(out.bias_grad, vec![0]);
        }
        _ => panic!("expected completion"),
    }
}
