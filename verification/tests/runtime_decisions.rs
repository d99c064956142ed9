//! Tests of the operator semantics (fused against unfused), the dynamic
//! symbol table, and the runtime's sizing, geometry and parameter-order
//! decisions.

use fusion_core::kernel::{
    binary_kernel, launch_1d, launch_2d, launch_params, output_elements, ElementType,
    KernelParam,
};
use fusion_core::semantics::{
    fused_eq, fused_gather, fused_sub, unfused_eq, unfused_gather, unfused_sub,
};
use fusion_core::shape::{Dim, ShapeTracker};
use fusion_core::symbols::{RuntimeError, SymbolTable};

#[test]
fn test_fused_subtraction_matches_unfused() {
    let cases = [(5i64, 3i64), (0, 0), (-7, 2), (2, -7), (100, 100), (-5, -9)];
    for (a, b) in cases {
        assert_eq!(fused_sub(a, b), unfused_sub(a, b));
        assert_eq!(fused_sub(a, b), a - b);
    }
}

#[test]
fn test_fused_equality_matches_unfused_including_ties() {
    let cases = [(1i64, 2i64), (2, 1), (3, 3), (0, 0), (-4, -4), (-4, 4)];
    for (a, b) in cases {
        assert_eq!(fused_eq(a, b), unfused_eq(a, b));
        assert_eq!(fused_eq(a, b), if a == b { 1 } else { 0 });
    }
}

#[test]
fn test_fused_gather_matches_unfused() {
    // a [4, 3] row-major table
    let table = vec![10i64, 11, 12, 20, 21, 22, 30, 31, 32, 40, 41, 42];
    for idx in 0..4 {
        for col in 0..3 {
            let direct = fused_gather(&table, 4, 3, idx, col);
            let onehot = unfused_gather(&table, 4, 3, idx, col);
            assert_eq!(direct, onehot);
            assert_eq!(direct, table[idx * 3 + col]);
        }
    }
}

#[test]
fn test_symbol_table_set_get() {
    let mut t = SymbolTable::new();
    assert_eq!(t.get('s'), None);
    t.set('s', 12);
    assert_eq!(t.get('s'), Some(12));
    t.set('s', 13);
    assert_eq!(t.get('s'), Some(13));
    t.set('p', 7);
    assert_eq!(t.get('p'), Some(7));
    assert_eq!(t.get('s'), Some(13));
}

#[test]
fn test_symbol_resolution_order_and_missing() {
    let mut t = SymbolTable::new();
    t.set('s', 5);
    t.set('p', 9);
    assert_eq!(t.resolve(&vec!['p', 's']), Ok(vec![9, 5]));
    assert_eq!(
        t.resolve(&vec!['p', 'q', 's']),
        Err(RuntimeError::MissingSymbol('q'))
    );
}

#[test]
fn test_output_elements_concrete() {
    let t = SymbolTable::new();
    let st = ShapeTracker::new_contiguous(vec![Dim::Known(4), Dim::Known(5)]);
    assert_eq!(output_elements(&st, &t), Ok(20));
}

#[test]
fn test_output_elements_dynamic() {
    let mut t = SymbolTable::new();
    t.set('s', 6);
    let st = ShapeTracker::new_contiguous(vec![Dim::Known(4), Dim::Sym('s')]);
    assert_eq!(output_elements(&st, &t), Ok(24));
    let missing = ShapeTracker::new_contiguous(vec![Dim::Sym('q')]);
    assert_eq!(
        output_elements(&missing, &t),
        Err(RuntimeError::MissingSymbol('q'))
    );
}

#[test]
fn test_output_elements_padded_and_sliced() {
    let t = SymbolTable::new();
    // padding widens the logical extent, slicing narrows it
    let padded = ShapeTracker::new_contiguous(vec![Dim::Known(4)]).pad(0, 1, 2);
    assert_eq!(output_elements(&padded, &t), Ok(7));
    let sliced = ShapeTracker::new_contiguous(vec![Dim::Known(4)]).slice(0, 1, 3);
    assert_eq!(output_elements(&sliced, &t), Ok(2));
    let empty = ShapeTracker::new_contiguous(vec![Dim::Known(4), Dim::Known(0)]);
    assert_eq!(output_elements(&empty, &t), Ok(0));
}

#[test]
fn test_output_elements_overflow_is_fatal() {
    let t = SymbolTable::new();
    let huge = 1u64 << 40;
    let st = ShapeTracker::new_contiguous(vec![Dim::Known(huge), Dim::Known(huge)]);
    assert_eq!(output_elements(&st, &t), Err(RuntimeError::SizeOverflow));
}

#[test]
fn test_launch_geometry_covers_all_elements() {
    let (grid, block) = launch_1d(5000);
    assert_eq!(block, (1024, 1, 1));
    assert_eq!(grid, (5, 1, 1));
    let (g0, b0) = launch_1d(0);
    assert_eq!(g0.0, 0);
    assert_eq!(b0, (1024, 1, 1));
    let (g2, b2) = launch_2d(33, 16);
    assert_eq!(b2, (16, 16, 1));
    assert_eq!(g2, (3, 1, 1));
}

#[test]
fn test_launch_parameter_order() {
    let params = launch_params(2, &vec!['s', 'p']);
    assert_eq!(
        params,
        vec![
            KernelParam::Output,
            KernelParam::Input(0),
            KernelParam::Input(1),
            KernelParam::ElementCount,
            KernelParam::DynSymbol('s'),
            KernelParam::DynSymbol('p'),
        ]
    );
}

#[test]
fn test_binary_kernel_bundle() {
    let a = ShapeTracker::new_contiguous(vec![Dim::Known(2), Dim::Sym('s')]);
    let b = ShapeTracker::new_contiguous(vec![Dim::Sym('s'), Dim::Sym('p')]);
    let k = binary_kernel(&a, &b, ElementType::F32);
    assert_eq!(k.elem, ElementType::F32);
    assert_eq!(k.dyn_symbols, vec!['s', 'p']);
}
