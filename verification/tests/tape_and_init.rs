//! Behavior of the gradient tape, the packet routing table, and the
//! deterministic entropy streams.

use htp_core::affine::AffineTuple;
use htp_core::init::{ConceptEmbedder, WeightInitializer};
use htp_core::merkle::{CausalTrace, OpType};
use htp_core::node::{route_packet, NodeRole, PacketAction, PacketKind};
use htp_core::oracle::LogicOracle;

#[test]
fn backward_splits_a_merge_gradient_equally() {
    let mut trace = CausalTrace::new();
    let l0 = trace.push_leaf(AffineTuple::new(1, vec![0]));
    let l1 = trace.push_leaf(AffineTuple::new(2, vec![0]));
    let merged = AffineTuple::new(1, vec![0]).commutative_merge(&AffineTuple::new(2, vec![0]));
    let m = trace.push_n_ary_merge(vec![l0, l1], merged);
    assert_eq!(m, 2);
    let grads = trace.backward(&AffineTuple::new(4, vec![10]));
    assert_eq!(grads.len(), 3);
    // each parent receives half the output gradient
    assert_eq!(grads[0].linear, 2);
    assert_eq!(grads[0].translation, vec![5]);
    assert_eq!(grads[1].linear, 2);
    assert_eq!(grads[1].translation, vec![5]);
    // the output node keeps the seeded gradient
    assert_eq!(grads[2].linear, 4);
    assert_eq!(grads[2].translation, vec![10]);
}

#[test]
fn backward_stops_at_leaves_and_compositions() {
    let mut trace = CausalTrace::new();
    let l0 = trace.push_leaf(AffineTuple::new(3, vec![1]));
    let l1 = trace.push_leaf(AffineTuple::new(5, vec![2]));
    let composed = AffineTuple::new(5, vec![2]).compose(&AffineTuple::new(3, vec![1]));
    let c = trace.push_compose(l0, l1, composed);
    assert_eq!(trace.nodes[c].op, OpType::TimeCompose);
    let grads = trace.backward(&AffineTuple::new(1, vec![8]));
    // composition nodes pass nothing to their parents on this tape
    assert_eq!(grads[0].linear, 0);
    assert_eq!(grads[0].translation, vec![0]);
    assert_eq!(grads[1].linear, 0);
    assert_eq!(grads[2].translation, vec![8]);
    assert_eq!(trace.complexity(), 3);
}

#[test]
fn routing_table_matches_roles_to_duties() {
    let worker = NodeRole::Worker;
    let ps = NodeRole::ParameterServer;
    assert_eq!(route_packet(worker, PacketKind::Handshake), PacketAction::LogOnly);
    assert_eq!(route_packet(ps, PacketKind::Handshake), PacketAction::LogOnly);
    assert_eq!(
        route_packet(worker, PacketKind::InferenceRequest),
        PacketAction::HandleInference
    );
    assert_eq!(
        route_packet(ps, PacketKind::InferenceRequest),
        PacketAction::Ignore
    );
    assert_eq!(
        route_packet(ps, PacketKind::GradientPush),
        PacketAction::ApplyGradientUpdate
    );
    assert_eq!(route_packet(worker, PacketKind::GradientPush), PacketAction::Ignore);
    assert_eq!(
        route_packet(worker, PacketKind::ParameterBroadcast),
        PacketAction::SyncParameters
    );
    assert_eq!(
        route_packet(ps, PacketKind::ParameterBroadcast),
        PacketAction::Ignore
    );
    assert_eq!(route_packet(worker, PacketKind::InferenceResponse), PacketAction::Ignore);
}

#[test]
fn token_embedding_words_are_deterministic() {
    let words = ConceptEmbedder::embed_token_words(42, 2);
    assert_eq!(words, vec![13679457532755275413u64, 2949826092126892291u64]);
    let again = ConceptEmbedder::embed_token_words(42, 2);
    assert_eq!(words, again);
    assert_eq!(ConceptEmbedder::embed_token_words(7, 0).len(), 0);
}

#[test]
fn weight_and_premise_words_share_the_congruential_stream() {
    let w = WeightInitializer::init_matrix_words(1, 2, 777);
    assert_eq!(w, vec![1206434174798331798u64, 2483796647049189215u64]);
    let p = LogicOracle::premise_words(777, 2);
    assert_eq!(p, w);
    assert_eq!(WeightInitializer::init_matrix_words(3, 4, 9).len(), 12);
}

#[test]
fn wrap_arithmetic_wraps_at_the_boundaries() {
    let top = AffineTuple::new(i64::MAX, vec![i64::MAX]);
    let one = AffineTuple::new(1, vec![1]);
    let s = top.add_components(&one);
    assert_eq!(s.linear, i64::MIN);
    assert_eq!(s.translation, vec![i64::MIN]);
    let doubled = top.scale(2);
    assert_eq!(doubled.linear, -2);
}
