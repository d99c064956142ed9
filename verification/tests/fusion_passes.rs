//! Scenario tests for the three fusion passes: rewrites happen where the
//! idiom matches, are skipped where the guard or a view precondition
//! trips, run to a fixed point, and never break shared producers.

use fusion_core::fusion::equal::EqualityCompiler;
use fusion_core::fusion::gather::GatherCompiler;
use fusion_core::fusion::SubtractionCompiler;
use fusion_core::graph::{Graph, Op};
use fusion_core::shape::{Dim, ShapeTracker};

fn vec4() -> ShapeTracker {
    ShapeTracker::new_contiguous(vec![Dim::Known(4)])
}

fn count_live(g: &Graph, op: Op) -> usize {
    g.ops.iter().filter(|o| **o == Some(op)).count()
}

fn has_edge(g: &Graph, src: usize, dst: usize, input_slot: usize) -> bool {
    g.edges
        .iter()
        .any(|e| e.src == src && e.dst == dst && e.input_slot == input_slot)
}

/// Build `add(a, mul(b, -1))` over the given view on the `mul -> add`
/// edge; returns (graph, a, b, mul, cnst, add).
fn build_sub_idiom(mul_out_view: ShapeTracker) -> (Graph, usize, usize, usize, usize, usize) {
    let mut g = Graph::new();
    let a = g.add_node(Op::Foreign(1));
    let b = g.add_node(Op::Foreign(2));
    let cnst = g.add_node(Op::Constant(-1));
    let mul = g.add_node(Op::Mul);
    let add = g.add_node(Op::Add);
    g.add_edge(b, mul, 0, 0, vec4());
    g.add_edge(cnst, mul, 1, 0, vec4());
    g.add_edge(a, add, 0, 0, vec4());
    g.add_edge(mul, add, 1, 0, mul_out_view);
    (g, a, b, mul, cnst, add)
}

#[test]
fn test_subtraction_fusion() {
    let (mut g, a, b, mul, cnst, add) = build_sub_idiom(vec4());
    let n0 = g.ops.len();
    let rewrites = SubtractionCompiler.compile(&mut g);
    assert_eq!(rewrites, 1);
    // the terminal and the intermediates are gone
    assert_eq!(g.ops[add], None);
    assert_eq!(g.ops[mul], None);
    assert_eq!(g.ops[cnst], None);
    // the fused operator exists and takes (a, b)
    assert_eq!(g.ops[n0], Some(Op::FusedSub));
    assert!(has_edge(&g, a, n0, 0));
    assert!(has_edge(&g, b, n0, 1));
    assert_eq!(count_live(&g, Op::Add), 0);
}

#[test]
fn test_subtraction_idempotent() {
    let (mut g, _a, _b, _mul, _cnst, _add) = build_sub_idiom(vec4());
    let first = SubtractionCompiler.compile(&mut g);
    assert_eq!(first, 1);
    let ops_after: Vec<Option<Op>> = g.ops.clone();
    let n_edges_after = g.edges.len();
    let second = SubtractionCompiler.compile(&mut g);
    assert_eq!(second, 0);
    assert_eq!(g.ops, ops_after);
    assert_eq!(g.edges.len(), n_edges_after);
}

#[test]
fn test_subtraction_guard_kept_terminal() {
    let (mut g, _a, _b, mul, cnst, add) = build_sub_idiom(vec4());
    g.mark_no_delete(add);
    let rewrites = SubtractionCompiler.compile(&mut g);
    assert_eq!(rewrites, 0);
    assert_eq!(g.ops[add], Some(Op::Add));
    assert_eq!(g.ops[mul], Some(Op::Mul));
    assert_eq!(g.ops[cnst], Some(Op::Constant(-1)));
    assert_eq!(count_live(&g, Op::FusedSub), 0);
}

#[test]
fn test_subtraction_skips_padded_view() {
    let padded = vec4().pad(0, 1, 1);
    let (mut g, _a, _b, mul, _cnst, add) = build_sub_idiom(padded);
    let rewrites = SubtractionCompiler.compile(&mut g);
    assert_eq!(rewrites, 0);
    // the generic nodes stay, the specialized node is absent
    assert_eq!(g.ops[add], Some(Op::Add));
    assert_eq!(g.ops[mul], Some(Op::Mul));
    assert_eq!(count_live(&g, Op::FusedSub), 0);
}

#[test]
fn test_subtraction_skips_sliced_view() {
    let sliced = vec4().slice(0, 1, 3);
    let (mut g, _a, _b, mul, _cnst, add) = build_sub_idiom(sliced);
    let rewrites = SubtractionCompiler.compile(&mut g);
    assert_eq!(rewrites, 0);
    assert_eq!(g.ops[add], Some(Op::Add));
    assert_eq!(g.ops[mul], Some(Op::Mul));
    assert_eq!(count_live(&g, Op::FusedSub), 0);
}

#[test]
fn test_shared_intermediate_blocks_rewrite() {
    // mul is also consumed outside the match: deleting it would corrupt
    // the shared subexpression, so the match is skipped
    let (mut g, _a, _b, mul, cnst, add) = build_sub_idiom(vec4());
    let outside = g.add_node(Op::Foreign(9));
    g.add_edge(mul, outside, 0, 0, vec4());
    let rewrites = SubtractionCompiler.compile(&mut g);
    assert_eq!(rewrites, 0);
    assert_eq!(g.ops[add], Some(Op::Add));
    assert_eq!(g.ops[mul], Some(Op::Mul));
    assert_eq!(g.ops[cnst], Some(Op::Constant(-1)));
    assert!(has_edge(&g, mul, outside, 0));
}

#[test]
fn test_shared_input_survives() {
    // b feeds the fusible pattern and an unrelated consumer: the fusion
    // happens, and both the shared node and its other consumer stay wired
    let (mut g, a, b, _mul, _cnst, _add) = build_sub_idiom(vec4());
    let outside = g.add_node(Op::Foreign(9));
    g.add_edge(b, outside, 0, 0, vec4());
    let n0 = g.ops.len();
    let rewrites = SubtractionCompiler.compile(&mut g);
    assert_eq!(rewrites, 1);
    assert_eq!(g.ops[n0], Some(Op::FusedSub));
    assert_eq!(g.ops[b], Some(Op::Foreign(2)));
    assert_eq!(g.ops[outside], Some(Op::Foreign(9)));
    assert!(has_edge(&g, b, outside, 0));
    assert!(has_edge(&g, a, n0, 0));
    assert!(has_edge(&g, b, n0, 1));
}

/// Build `sub(1, add(lt(a, b), lt(b, a)))` with the fused subtraction at
/// the root; returns (graph, a, b, root).
fn build_eq_idiom() -> (Graph, usize, usize, usize) {
    let mut g = Graph::new();
    let a = g.add_node(Op::Foreign(1));
    let b = g.add_node(Op::Foreign(2));
    let one = g.add_node(Op::Constant(1));
    let lt1 = g.add_node(Op::LessThan);
    let lt2 = g.add_node(Op::LessThan);
    let ne = g.add_node(Op::Add);
    let root = g.add_node(Op::FusedSub);
    g.add_edge(a, lt1, 0, 0, vec4());
    g.add_edge(b, lt1, 1, 0, vec4());
    g.add_edge(b, lt2, 0, 0, vec4());
    g.add_edge(a, lt2, 1, 0, vec4());
    g.add_edge(lt1, ne, 0, 0, vec4());
    g.add_edge(lt2, ne, 1, 0, vec4());
    g.add_edge(one, root, 0, 0, vec4());
    g.add_edge(ne, root, 1, 0, vec4());
    (g, a, b, root)
}

#[test]
fn test_equality_fusion() {
    let (mut g, a, b, root) = build_eq_idiom();
    let n0 = g.ops.len();
    let rewrites = EqualityCompiler.compile(&mut g);
    assert_eq!(rewrites, 1);
    assert_eq!(g.ops[root], None);
    assert_eq!(g.ops[n0], Some(Op::FusedEqual));
    assert!(has_edge(&g, a, n0, 0));
    assert!(has_edge(&g, b, n0, 1));
    assert_eq!(count_live(&g, Op::LessThan), 0);
    assert_eq!(count_live(&g, Op::Add), 0);
}

#[test]
fn test_equality_idempotent() {
    let (mut g, _a, _b, _root) = build_eq_idiom();
    assert_eq!(EqualityCompiler.compile(&mut g), 1);
    let ops_after: Vec<Option<Op>> = g.ops.clone();
    assert_eq!(EqualityCompiler.compile(&mut g), 0);
    assert_eq!(g.ops, ops_after);
}

#[test]
fn test_equality_guard_kept_terminal() {
    let (mut g, _a, _b, root) = build_eq_idiom();
    g.mark_no_delete(root);
    assert_eq!(EqualityCompiler.compile(&mut g), 0);
    assert_eq!(g.ops[root], Some(Op::FusedSub));
    assert_eq!(count_live(&g, Op::FusedEqual), 0);
}

/// Build `reduce_sum(mul(eq(arange, index), table))` with the given table
/// view; returns (graph, indices, table, root).
fn build_gather_idiom(table_view: ShapeTracker) -> (Graph, usize, usize, usize) {
    let mut g = Graph::new();
    let indices = g.add_node(Op::Foreign(1));
    let table = g.add_node(Op::Foreign(2));
    let arange = g.add_node(Op::ARange);
    let eq = g.add_node(Op::FusedEqual);
    let mul = g.add_node(Op::Mul);
    let root = g.add_node(Op::SumReduce);
    g.add_edge(arange, eq, 0, 0, vec4());
    g.add_edge(indices, eq, 1, 0, vec4());
    g.add_edge(eq, mul, 0, 0, vec4());
    g.add_edge(table, mul, 1, 0, table_view);
    g.add_edge(mul, root, 0, 0, vec4());
    (g, indices, table, root)
}

#[test]
fn test_gather_fusion() {
    let table_view = ShapeTracker::new_contiguous(vec![Dim::Known(5), Dim::Known(3)]);
    let (mut g, indices, table, root) = build_gather_idiom(table_view);
    let n0 = g.ops.len();
    let rewrites = GatherCompiler.compile(&mut g);
    assert_eq!(rewrites, 1);
    assert_eq!(g.ops[root], None);
    assert_eq!(g.ops[n0], Some(Op::FusedGather(3)));
    assert!(has_edge(&g, indices, n0, 0));
    assert!(has_edge(&g, table, n0, 1));
    assert_eq!(count_live(&g, Op::ARange), 0);
    assert_eq!(count_live(&g, Op::Mul), 0);
    assert_eq!(count_live(&g, Op::FusedEqual), 0);
}

#[test]
fn test_gather_symbolic_embedding_skipped() {
    // a dynamic embedding width must leave the unfused subgraph intact
    let table_view = ShapeTracker::new_contiguous(vec![Dim::Known(5), Dim::Sym('d')]);
    let (mut g, _indices, _table, root) = build_gather_idiom(table_view);
    let rewrites = GatherCompiler.compile(&mut g);
    assert_eq!(rewrites, 0);
    assert_eq!(g.ops[root], Some(Op::SumReduce));
    assert_eq!(count_live(&g, Op::Mul), 1);
    assert_eq!(count_live(&g, Op::FusedEqual), 1);
    assert_eq!(count_live(&g, Op::ARange), 1);
    let gathers = g
        .ops
        .iter()
        .filter(|o| matches!(o, Some(Op::FusedGather(_))))
        .count();
    assert_eq!(gathers, 0);
}

#[test]
fn test_gather_idempotent() {
    let table_view = ShapeTracker::new_contiguous(vec![Dim::Known(5), Dim::Known(3)]);
    let (mut g, _indices, _table, _root) = build_gather_idiom(table_view);
    assert_eq!(GatherCompiler.compile(&mut g), 1);
    let ops_after: Vec<Option<Op>> = g.ops.clone();
    assert_eq!(GatherCompiler.compile(&mut g), 0);
    assert_eq!(g.ops, ops_after);
}

#[test]
fn test_pass_pipeline_chains() {
    // the equality pass consumes the fused subtraction the first pass
    // produced: sub(1, add(lt(a, b), lt(b, a))) written with the generic
    // subtraction idiom at the root
    let mut g = Graph::new();
    let a = g.add_node(Op::Foreign(1));
    let b = g.add_node(Op::Foreign(2));
    let one = g.add_node(Op::Constant(1));
    let lt1 = g.add_node(Op::LessThan);
    let lt2 = g.add_node(Op::LessThan);
    let ne = g.add_node(Op::Add);
    // one - ne, spelled add(one, mul(ne, -1))
    let minus_one = g.add_node(Op::Constant(-1));
    let mul = g.add_node(Op::Mul);
    let add = g.add_node(Op::Add);
    g.add_edge(a, lt1, 0, 0, vec4());
    g.add_edge(b, lt1, 1, 0, vec4());
    g.add_edge(b, lt2, 0, 0, vec4());
    g.add_edge(a, lt2, 1, 0, vec4());
    g.add_edge(lt1, ne, 0, 0, vec4());
    g.add_edge(lt2, ne, 1, 0, vec4());
    g.add_edge(ne, mul, 0, 0, vec4());
    g.add_edge(minus_one, mul, 1, 0, vec4());
    g.add_edge(one, add, 0, 0, vec4());
    g.add_edge(mul, add, 1, 0, vec4());
    assert_eq!(SubtractionCompiler.compile(&mut g), 1);
    assert_eq!(EqualityCompiler.compile(&mut g), 1);
    let equals = count_live(&g, Op::FusedEqual);
    assert_eq!(equals, 1);
    assert_eq!(count_live(&g, Op::LessThan), 0);
    assert_eq!(count_live(&g, Op::FusedSub), 0);
}
