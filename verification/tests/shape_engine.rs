//! Tests of the view descriptors and the shape/index symbolic engine.

use fusion_core::expr::{eval_expr, Expr};
use fusion_core::indexing::{dyn_symbols, index_valid_expressions};
use fusion_core::shape::{Dim, ShapeTracker, NO_SLICE_END};
use fusion_core::symbols::SymbolTable;

#[test]
fn test_contiguous_predicates() {
    let st = ShapeTracker::new_contiguous(vec![Dim::Known(2), Dim::Known(3)]);
    assert!(st.is_contiguous());
    assert!(!st.is_padded());
    assert!(!st.is_sliced());
    assert!(st.is_fusable());
    assert_eq!(st.n_dims(), 2);
}

#[test]
fn test_pad_and_slice_predicates() {
    let st = ShapeTracker::new_contiguous(vec![Dim::Known(4)]);
    let padded = st.pad(0, 1, 2);
    assert!(padded.is_padded());
    assert!(!padded.is_sliced());
    assert!(!padded.is_fusable());
    let sliced = st.slice(0, 1, 3);
    assert!(sliced.is_sliced());
    assert!(!sliced.is_padded());
    assert!(!sliced.is_fusable());
}

#[test]
fn test_permute_shape_order() {
    let st = ShapeTracker::new_contiguous(vec![Dim::Known(2), Dim::Known(3), Dim::Known(5)]);
    let p = st.permute(&vec![2, 0, 1]);
    let sh = p.shape();
    assert_eq!(sh, vec![Dim::Known(5), Dim::Known(2), Dim::Known(3)]);
    assert!(!p.is_contiguous());
    assert_eq!(p.dim_at(0), Dim::Known(5));
    assert_eq!(p.dim_at(2), Dim::Known(3));
}

#[test]
fn test_contiguous_short_circuit() {
    // a contiguous, unpadded, unsliced view short-circuits to the
    // identity index and an always-true validity
    let st = ShapeTracker::new_contiguous(vec![Dim::Known(6), Dim::Known(7)]);
    let (idx, valid) = index_valid_expressions(&st);
    assert!(matches!(idx, Expr::Idx));
    assert!(matches!(valid, Expr::Num(1)));
}

#[test]
fn test_padded_view_gets_general_expressions() {
    let st = ShapeTracker::new_contiguous(vec![Dim::Known(4)]).pad(0, 1, 1);
    let (idx, valid) = index_valid_expressions(&st);
    assert!(!matches!(idx, Expr::Idx));
    assert!(!matches!(valid, Expr::Num(1)));
}

#[test]
fn test_symbolic_view_gets_general_expressions() {
    // a dynamic dimension makes the layout non-identity only when the
    // view is otherwise transformed; permuting forces the general path
    let st = ShapeTracker::new_contiguous(vec![Dim::Sym('s'), Dim::Known(4)]).permute(&vec![1, 0]);
    let (idx, _valid) = index_valid_expressions(&st);
    assert!(!matches!(idx, Expr::Idx));
}

#[test]
fn test_slice_defaults() {
    let st = ShapeTracker::new_contiguous(vec![Dim::Known(4)]);
    assert_eq!(st.mask[0], (0, NO_SLICE_END));
    assert_eq!(st.padding[0], (0, 0));
}

#[test]
fn test_index_expression_values_for_transpose() {
    // storage [2, 3] read as logical [3, 2]: flat position k reads
    // storage offset (k % 2) * 3 + (k / 2)
    let st = ShapeTracker::new_contiguous(vec![Dim::Known(2), Dim::Known(3)]).permute(&vec![1, 0]);
    let (idx, valid) = index_valid_expressions(&st);
    let table = SymbolTable::new();
    let expected = [0i64, 3, 1, 4, 2, 5];
    for k in 0..6 {
        assert_eq!(eval_expr(&idx, k as i64, &table), expected[k as usize]);
        assert_ne!(eval_expr(&valid, k as i64, &table), 0);
    }
}

#[test]
fn test_validity_expression_for_padded_view() {
    // [4] padded by (1, 1): six logical positions, the outermost two fall
    // in the padding
    let st = ShapeTracker::new_contiguous(vec![Dim::Known(4)]).pad(0, 1, 1);
    let (idx, valid) = index_valid_expressions(&st);
    let table = SymbolTable::new();
    let expect_valid = [false, true, true, true, true, false];
    for k in 0..6 {
        assert_eq!(eval_expr(&valid, k, &table) != 0, expect_valid[k as usize]);
    }
    // inside the data the offset subtracts the left padding
    assert_eq!(eval_expr(&idx, 1, &table), 0);
    assert_eq!(eval_expr(&idx, 4, &table), 3);
}

#[test]
fn test_index_expression_with_dynamic_dim() {
    // storage [s, 4] read as logical [4, s]; with s bound to 3, flat
    // position k reads storage offset (k % 3) * 4 + (k / 3)
    let st =
        ShapeTracker::new_contiguous(vec![Dim::Sym('s'), Dim::Known(4)]).permute(&vec![1, 0]);
    let (idx, _valid) = index_valid_expressions(&st);
    let mut table = SymbolTable::new();
    table.set('s', 3);
    let expected = [0i64, 4, 8, 1, 5, 9, 2, 6, 10, 3, 7, 11];
    for k in 0..12 {
        assert_eq!(eval_expr(&idx, k as i64, &table), expected[k as usize]);
    }
}

#[test]
fn test_dyn_symbols_dedup_stable_order() {
    let s1 = ShapeTracker::new_contiguous(vec![Dim::Sym('a'), Dim::Known(2), Dim::Sym('b')]);
    let s2 = ShapeTracker::new_contiguous(vec![Dim::Sym('b'), Dim::Sym('c')]);
    let syms = dyn_symbols(&vec![s1, s2]);
    assert_eq!(syms, vec!['a', 'b', 'c']);
}

#[test]
fn test_dyn_symbols_empty() {
    let s1 = ShapeTracker::new_contiguous(vec![Dim::Known(2), Dim::Known(3)]);
    let syms = dyn_symbols(&vec![s1]);
    assert_eq!(syms, Vec::<char>::new());
}
