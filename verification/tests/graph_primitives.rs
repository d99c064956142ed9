//! Tests of the graph mutation primitives the compiler passes build on.

use fusion_core::graph::{Graph, Op};
use fusion_core::shape::{Dim, ShapeTracker};

fn view() -> ShapeTracker {
    ShapeTracker::new_contiguous(vec![Dim::Known(2)])
}

#[test]
fn test_remove_node_drops_incident_edges() {
    let mut g = Graph::new();
    let a = g.add_node(Op::Foreign(1));
    let b = g.add_node(Op::Foreign(2));
    let c = g.add_node(Op::Add);
    g.add_edge(a, c, 0, 0, view());
    g.add_edge(b, c, 1, 0, view());
    g.add_edge(a, b, 0, 0, view());
    g.remove_node(c);
    assert_eq!(g.ops[c], None);
    assert_eq!(g.edges.len(), 1);
    assert_eq!((g.edges[0].src, g.edges[0].dst), (a, b));
}

#[test]
fn test_move_outgoing_edge_redirects_sources() {
    let mut g = Graph::new();
    let a = g.add_node(Op::Foreign(1));
    let b = g.add_node(Op::Foreign(2));
    let c = g.add_node(Op::Foreign(3));
    g.add_edge(a, c, 0, 0, view());
    g.add_edge(c, a, 1, 0, view());
    g.move_outgoing_edge(a, b);
    // the edge leaving a now leaves b; the edge entering a is untouched
    assert_eq!((g.edges[0].src, g.edges[0].dst, g.edges[0].input_slot), (b, c, 0));
    assert_eq!((g.edges[1].src, g.edges[1].dst), (c, a));
}

#[test]
fn test_move_incoming_edge_redirects_targets() {
    let mut g = Graph::new();
    let a = g.add_node(Op::Foreign(1));
    let b = g.add_node(Op::Foreign(2));
    let c = g.add_node(Op::Foreign(3));
    g.add_edge(a, c, 0, 0, view());
    g.add_edge(c, a, 1, 0, view());
    g.move_incoming_edge(c, b);
    assert_eq!((g.edges[0].src, g.edges[0].dst, g.edges[0].input_slot), (a, b, 0));
    assert_eq!((g.edges[1].src, g.edges[1].dst), (c, a));
}

#[test]
fn test_check_no_delete_outside_consumer() {
    let mut g = Graph::new();
    let a = g.add_node(Op::Foreign(1));
    let b = g.add_node(Op::Foreign(2));
    let outside = g.add_node(Op::Foreign(3));
    g.add_edge(a, b, 0, 0, view());
    g.add_edge(a, outside, 0, 0, view());
    // a is consumed outside the match {a, b}: the guard trips
    assert!(g.check_no_delete(&vec![a, b], &vec![b]));
    // with the consumer inside the designated set, nothing leaves it
    assert!(!g.check_no_delete(&vec![a, b, outside], &vec![b, outside]));
}

#[test]
fn test_check_no_delete_kept_node() {
    let mut g = Graph::new();
    let a = g.add_node(Op::Foreign(1));
    let b = g.add_node(Op::Foreign(2));
    g.add_edge(a, b, 0, 0, view());
    assert!(!g.check_no_delete(&vec![a, b], &vec![]));
    g.mark_no_delete(a);
    assert!(g.check_no_delete(&vec![a, b], &vec![]));
    // an excluded node is not examined
    assert!(!g.check_no_delete(&vec![a, b], &vec![a]));
}

#[test]
fn test_try_delete_cascades_and_spares_survivors() {
    // chain a -> b -> c plus a consumer of b outside the candidates
    let mut g = Graph::new();
    let a = g.add_node(Op::Foreign(1));
    let b = g.add_node(Op::Foreign(2));
    let c = g.add_node(Op::Foreign(3));
    let keeper = g.add_node(Op::Foreign(4));
    g.add_edge(a, b, 0, 0, view());
    g.add_edge(b, c, 0, 0, view());
    g.add_edge(b, keeper, 1, 0, view());
    // c consumes nothing downstream, so it dies; b survives through its
    // outside consumer, and a survives through b
    g.try_delete(&vec![a, b, c]);
    assert_eq!(g.ops[c], None);
    assert_eq!(g.ops[b], Some(Op::Foreign(2)));
    assert_eq!(g.ops[a], Some(Op::Foreign(1)));
    assert_eq!(g.ops[keeper], Some(Op::Foreign(4)));
}

#[test]
fn test_try_delete_respects_keep_mark() {
    let mut g = Graph::new();
    let a = g.add_node(Op::Foreign(1));
    g.mark_no_delete(a);
    g.try_delete(&vec![a]);
    assert_eq!(g.ops[a], Some(Op::Foreign(1)));
}
