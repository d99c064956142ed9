//! The shape/index symbolic engine.
//!
//! A view descriptor is turned into two expressions over a flat output
//! position: the storage offset to read (stride, permutation, slice and
//! padding offsets, broadcast dimensions contributing zero) and the
//! validity of the access (false exactly where padding or slicing puts the
//! position outside the logical tensor). A contiguous, unpadded, unsliced
//! view short-circuits to the identity index and an always-true validity.
//! The value of every generated expression is pinned to a direct
//! mathematical model of strided addressing.

use vstd::prelude::*;

use crate::expr::{eval, Expr};
use crate::shape::{Dim, ShapeTracker, ShapeView, MAX_EXTENT, NO_SLICE_END};

verus! {

/// Value of a dimension under symbol values `env`; an unbound symbol
/// counts as 0.
pub open spec fn dim_val(d: Dim, env: Map<char, int>) -> int {
    match d {
        Dim::Known(n) => n as int,
        Dim::Sym(c) => if env.dom().contains(c) {
            env[c]
        } else {
            0
        },
    }
}

/// Size of logical dimension `j` after padding and slicing: the padded
/// extent, clipped to the slice end, minus the slice start.
pub open spec fn logical_size(v: ShapeView, j: int, env: Map<char, int>) -> int
    recommends
        v.wf(),
        0 <= j < v.rank(),
{
    let sd = v.indexes[j] as int;
    let padded = v.padding[sd].0 + dim_val(v.dims[sd], env) + v.padding[sd].1;
    let clipped = if v.mask[sd].1 == NO_SLICE_END {
        padded
    } else if v.mask[sd].1 as int <= padded {
        v.mask[sd].1 as int
    } else {
        padded
    };
    clipped - v.mask[sd].0
}

/// Product of the logical sizes of dimensions `j` and beyond.
pub open spec fn size_prod_from(v: ShapeView, j: int, env: Map<char, int>) -> int
    decreases v.rank() as int - j,
{
    if j < 0 || j >= v.rank() {
        1
    } else {
        logical_size(v, j, env) * size_prod_from(v, j + 1, env)
    }
}

/// Position of flat index `i` along logical dimension `j`; divisions and
/// remainders by zero count as 0.
pub open spec fn position_at(v: ShapeView, j: int, i: int, env: Map<char, int>) -> int {
    let d = size_prod_from(v, j + 1, env);
    let q = if d != 0 {
        i / d
    } else {
        0
    };
    let l = logical_size(v, j, env);
    if l != 0 {
        q % l
    } else {
        0
    }
}

/// Row-major stride factor of the storage dimensions `t` and beyond; a
/// broadcast dimension contributes factor 1.
pub open spec fn stride_after(v: ShapeView, t: int, env: Map<char, int>) -> int
    decreases v.rank() as int - t,
{
    if t < 0 || t >= v.rank() {
        1
    } else {
        (if v.fake[t] {
            1
        } else {
            dim_val(v.dims[t], env)
        }) * stride_after(v, t + 1, env)
    }
}

/// Whether logical-to-storage addressing must adjust for padding or a
/// slice on storage dimension `sd`.
pub open spec fn has_bounds(v: ShapeView, sd: int) -> bool {
    v.padding[sd].0 != 0 || v.padding[sd].1 != 0 || v.mask[sd].0 != 0 || v.mask[sd].1
        != NO_SLICE_END
}

/// Storage offset contributed by logical dimensions `j` and beyond: per
/// dimension, the position shifted by the slice start, less the left
/// padding, times the dimension's storage stride; a broadcast dimension
/// contributes 0.
pub open spec fn storage_index_from(v: ShapeView, j: int, i: int, env: Map<char, int>) -> int
    decreases v.rank() as int - j,
{
    if j < 0 || j >= v.rank() {
        0
    } else {
        let sd = v.indexes[j] as int;
        let term = if v.fake[sd] {
            0
        } else {
            (position_at(v, j, i, env) + v.mask[sd].0 - v.padding[sd].0) * stride_after(
                v,
                sd + 1,
                env,
            )
        };
        term + storage_index_from(v, j + 1, i, env)
    }
}

/// Validity of flat index `i` over logical dimensions `j` and beyond: per
/// padded or sliced dimension, the slice-shifted position must fall inside
/// the unpadded data.
pub open spec fn valid_from(v: ShapeView, j: int, i: int, env: Map<char, int>) -> bool
    decreases v.rank() as int - j,
{
    if j < 0 || j >= v.rank() {
        true
    } else {
        let sd = v.indexes[j] as int;
        let cond = if has_bounds(v, sd) {
            let q = position_at(v, j, i, env) + v.mask[sd].0;
            v.padding[sd].0 <= q < v.padding[sd].0 + dim_val(v.dims[sd], env)
        } else {
            true
        };
        cond && valid_from(v, j + 1, i, env)
    }
}

/// Storage offset of flat output position `i` through view `v`.
pub open spec fn storage_index(v: ShapeView, i: int, env: Map<char, int>) -> int {
    storage_index_from(v, 0, i, env)
}

/// Whether flat output position `i` falls inside the logical tensor.
pub open spec fn valid_index(v: ShapeView, i: int, env: Map<char, int>) -> bool {
    valid_from(v, 0, i, env)
}

/// Expression for one dimension's size or symbol.
fn dim_expr(d: Dim) -> (r: Expr)
    requires
        d matches Dim::Known(n) ==> n <= MAX_EXTENT,
    ensures
        forall|i: int, env: Map<char, int>| #![trigger eval(r, i, env)] eval(r, i, env) == dim_val(
            d,
            env,
        ),
{
    match d {
        Dim::Known(n) => Expr::Num(n as i64),
        Dim::Sym(c) => Expr::Sym(c),
    }
}

/// Expression for the storage stride of storage dimension `sd`: the
/// product of the sizes of the later non-broadcast storage dimensions.
fn stride_expr(st: &ShapeTracker, sd: usize) -> (r: Expr)
    requires
        st@.wf(),
        sd < st@.rank(),
    ensures
        forall|i: int, env: Map<char, int>| #![trigger eval(r, i, env)] eval(r, i, env)
            == stride_after(st@, sd as int + 1, env),
{
    let n = st.dims.len();
    let mut acc = Expr::Num(1);
    let mut t = n;
    proof {
        assert(forall|i: int, env: Map<char, int>| #![trigger eval(acc, i, env)] eval(acc, i, env)
            == 1);
    }
    while t > sd + 1
        invariant
            sd < t <= n || t == sd + 1,
            sd + 1 <= t,
            n == st@.rank(),
            st@.wf(),
            sd < n,
            forall|i: int, env: Map<char, int>| #![trigger eval(acc, i, env)] eval(acc, i, env)
                == stride_after(st@, t as int, env),
        decreases t,
    {
        t = t - 1;
        let ghost prev = acc;
        if !st.fake[t] {
            let de = dim_expr(st.dims[t]);
            let ghost gde = de;
            acc = Expr::Times(Box::new(de), Box::new(acc));
            proof {
                assert forall|i: int, env: Map<char, int>| #![trigger eval(acc, i, env)] eval(
                    acc,
                    i,
                    env,
                ) == stride_after(st@, t as int, env) by {
                    assert(eval(prev, i, env) == stride_after(st@, t as int + 1, env));
                    assert(eval(gde, i, env) == dim_val(st@.dims[t as int], env));
                    assert(eval(acc, i, env) == eval(gde, i, env) * eval(prev, i, env));
                }
            }
        } else {
            proof {
                assert forall|i: int, env: Map<char, int>| #![trigger eval(acc, i, env)] eval(
                    acc,
                    i,
                    env,
                ) == stride_after(st@, t as int, env) by {
                    assert(eval(prev, i, env) == stride_after(st@, t as int + 1, env));
                }
            }
        }
    }
    acc
}

/// Build the index and validity expressions of a view: the first maps a
/// flat output position to its storage offset, the second is nonzero
/// exactly where the position falls inside the logical tensor. A view that
/// is contiguous, unpadded and unsliced short-circuits to the identity
/// index and an always-true validity; any other view gets the general
/// expressions, whose values equal the addressing model exactly.
pub fn index_valid_expressions(st: &ShapeTracker) -> (r: (Expr, Expr))
    requires
        st@.wf(),
    ensures
        st@.fusable() ==> r.0 == Expr::Idx && r.1 == Expr::Num(1),
        !st@.fusable() ==> forall|i: int, env: Map<char, int>|
            #![trigger eval(r.0, i, env)]
            eval(r.0, i, env) == storage_index(st@, i, env),
        !st@.fusable() ==> forall|i: int, env: Map<char, int>|
            #![trigger eval(r.1, i, env)]
            (eval(r.1, i, env) != 0) == valid_index(st@, i, env),
{
    if st.is_fusable() {
        return (Expr::Idx, Expr::Num(1));
    }
    let n = st.dims.len();
    let mut idx_acc = Expr::Num(0);
    let mut valid_acc = Expr::Num(1);
    let mut div_acc = Expr::Num(1);
    let mut j = n;
    while j > 0
        invariant
            j <= n,
            n == st@.rank(),
            st@.wf(),
            forall|i: int, env: Map<char, int>| #![trigger eval(div_acc, i, env)] eval(
                div_acc,
                i,
                env,
            ) == size_prod_from(st@, j as int, env),
            forall|i: int, env: Map<char, int>| #![trigger eval(idx_acc, i, env)] eval(
                idx_acc,
                i,
                env,
            ) == storage_index_from(st@, j as int, i, env),
            forall|i: int, env: Map<char, int>| #![trigger eval(valid_acc, i, env)] (eval(
                valid_acc,
                i,
                env,
            ) != 0) == valid_from(st@, j as int, i, env),
        decreases j,
    {
        j = j - 1;
        let ghost prev_div = div_acc;
        let ghost prev_idx = idx_acc;
        let ghost prev_valid = valid_acc;
        let sd = st.indexes[j];
        let (pl, pr) = st.padding[sd];
        let (ms, me) = st.mask[sd];
        let d = st.dims[sd];
        let de = dim_expr(d);
        // padded and sliced size of this logical dimension
        let padded = Expr::Plus(
            Box::new(Expr::Num(pl as i64)),
            Box::new(Expr::Plus(Box::new(de.clone()), Box::new(Expr::Num(pr as i64)))),
        );
        let ghost gpadded = padded;
        let clipped = if me == NO_SLICE_END {
            padded
        } else {
            Expr::Min(Box::new(Expr::Num(me as i64)), Box::new(padded))
        };
        let ghost gclipped = clipped;
        let size_e = Expr::Minus(Box::new(clipped), Box::new(Expr::Num(ms as i64)));
        proof {
            assert forall|i: int, env: Map<char, int>| #![trigger eval(size_e, i, env)] eval(
                size_e,
                i,
                env,
            ) == logical_size(st@, j as int, env) by {
                reveal_with_fuel(crate::expr::eval, 6);
                assert(eval(de, i, env) == dim_val(st@.dims[sd as int], env));
                assert(eval(gpadded, i, env) == st@.padding[sd as int].0 + (dim_val(
                    st@.dims[sd as int],
                    env,
                ) + st@.padding[sd as int].1));
                assert(eval(gclipped, i, env) == (if st@.mask[sd as int].1 == NO_SLICE_END {
                    eval(gpadded, i, env)
                } else if st@.mask[sd as int].1 as int <= eval(gpadded, i, env) {
                    st@.mask[sd as int].1 as int
                } else {
                    eval(gpadded, i, env)
                }));
            }
        }
        // position of the flat index along this dimension
        let pos_e = Expr::Rem(
            Box::new(Expr::Quot(Box::new(Expr::Idx), Box::new(div_acc.clone()))),
            Box::new(size_e.clone()),
        );
        proof {
            assert forall|i: int, env: Map<char, int>| #![trigger eval(pos_e, i, env)] eval(
                pos_e,
                i,
                env,
            ) == position_at(st@, j as int, i, env) by {
                reveal_with_fuel(crate::expr::eval, 6);
                assert(eval(prev_div, i, env) == size_prod_from(st@, j as int + 1, env));
                assert(eval(size_e, i, env) == logical_size(st@, j as int, env));
            }
        }
        // storage offset contribution
        if !st.fake[sd] {
            let q_e = Expr::Plus(Box::new(pos_e.clone()), Box::new(Expr::Num(ms as i64)));
            let ghost gq = q_e;
            let coord_e = Expr::Minus(Box::new(q_e), Box::new(Expr::Num(pl as i64)));
            let ghost gcoord = coord_e;
            let se = stride_expr(st, sd);
            let ghost gse = se;
            idx_acc = Expr::Plus(
                Box::new(Expr::Times(Box::new(coord_e), Box::new(se))),
                Box::new(idx_acc),
            );
            proof {
                assert forall|i: int, env: Map<char, int>| #![trigger eval(idx_acc, i, env)] eval(
                    idx_acc,
                    i,
                    env,
                ) == storage_index_from(st@, j as int, i, env) by {
                    reveal_with_fuel(crate::expr::eval, 6);
                    assert(eval(prev_idx, i, env) == storage_index_from(st@, j as int + 1, i, env));
                    assert(eval(pos_e, i, env) == position_at(st@, j as int, i, env));
                    assert(eval(gse, i, env) == stride_after(st@, sd as int + 1, env));
                    assert(eval(gq, i, env) == position_at(st@, j as int, i, env) + st@.mask[
                        sd as int
                    ].0);
                    assert(eval(gcoord, i, env) == position_at(st@, j as int, i, env) + st@.mask[
                        sd as int
                    ].0 - st@.padding[sd as int].0);
                }
            }
        } else {
            proof {
                assert forall|i: int, env: Map<char, int>| #![trigger eval(idx_acc, i, env)] eval(
                    idx_acc,
                    i,
                    env,
                ) == storage_index_from(st@, j as int, i, env) by {
                    assert(eval(prev_idx, i, env) == storage_index_from(st@, j as int + 1, i, env));
                }
            }
        }
        // validity contribution
        if pl != 0 || pr != 0 || ms != 0 || me != NO_SLICE_END {
            let q_e = Expr::Plus(Box::new(pos_e.clone()), Box::new(Expr::Num(ms as i64)));
            let ghost gq2 = q_e;
            let upper = Expr::Plus(Box::new(Expr::Num(pl as i64)), Box::new(de.clone()));
            let ghost gupper = upper;
            let cond = Expr::And(
                Box::new(Expr::Gte(Box::new(q_e.clone()), Box::new(Expr::Num(pl as i64)))),
                Box::new(Expr::Lt(Box::new(q_e), Box::new(upper))),
            );
            let ghost gcond = cond;
            valid_acc = Expr::And(Box::new(cond), Box::new(valid_acc));
            proof {
                assert forall|i: int, env: Map<char, int>| #![trigger eval(valid_acc, i, env)] (
                eval(valid_acc, i, env) != 0) == valid_from(st@, j as int, i, env) by {
                    reveal_with_fuel(crate::expr::eval, 6);
                    assert((eval(prev_valid, i, env) != 0) == valid_from(st@, j as int + 1, i, env));
                    assert(eval(pos_e, i, env) == position_at(st@, j as int, i, env));
                    assert(eval(gq2, i, env) == position_at(st@, j as int, i, env) + st@.mask[
                        sd as int
                    ].0);
                    assert(eval(de, i, env) == dim_val(st@.dims[sd as int], env));
                    assert(eval(gupper, i, env) == st@.padding[sd as int].0 + dim_val(
                        st@.dims[sd as int],
                        env,
                    ));
                    assert((eval(gcond, i, env) != 0) == (st@.padding[sd as int].0 <= eval(
                        gq2,
                        i,
                        env,
                    ) < st@.padding[sd as int].0 + dim_val(st@.dims[sd as int], env)));
                }
            }
        } else {
            proof {
                assert forall|i: int, env: Map<char, int>| #![trigger eval(valid_acc, i, env)] (
                eval(valid_acc, i, env) != 0) == valid_from(st@, j as int, i, env) by {
                    assert((eval(prev_valid, i, env) != 0) == valid_from(st@, j as int + 1, i, env));
                    assert(!has_bounds(st@, sd as int));
                }
            }
        }
        // running product of logical sizes for the next dimension
        let ghost gsize = size_e;
        div_acc = Expr::Times(Box::new(size_e), Box::new(div_acc));
        proof {
            assert forall|i: int, env: Map<char, int>| #![trigger eval(div_acc, i, env)] eval(
                div_acc,
                i,
                env,
            ) == size_prod_from(st@, j as int, env) by {
                reveal_with_fuel(crate::expr::eval, 6);
                assert(eval(prev_div, i, env) == size_prod_from(st@, j as int + 1, env));
                assert(eval(gsize, i, env) == logical_size(st@, j as int, env));
            }
        }
    }
    (idx_acc, valid_acc)
}

/// On a fusable view every logical size is the bare dimension value.
proof fn lemma_fusable_size(v: ShapeView, env: Map<char, int>, j: int)
    requires
        v.wf(),
        v.fusable(),
        0 <= j < v.rank(),
    ensures
        logical_size(v, j, env) == dim_val(v.dims[j], env),
{
    assert(v.indexes[j] == j);
    assert(v.padding[j].0 == 0 && v.padding[j].1 == 0);
    assert(v.mask[j].0 == 0 && v.mask[j].1 == NO_SLICE_END);
}

/// On a fusable view the storage strides are the suffix products of the
/// logical sizes: the canonical row-major strides.
proof fn lemma_fusable_strides(v: ShapeView, env: Map<char, int>, t: int)
    requires
        v.wf(),
        v.fusable(),
        0 <= t <= v.rank(),
    ensures
        stride_after(v, t, env) == size_prod_from(v, t, env),
    decreases v.rank() as int - t,
{
    if t < v.rank() {
        lemma_fusable_strides(v, env, t + 1);
        assert(!v.fake[t]);
        lemma_fusable_size(v, env, t);
    }
}

/// A product of positive sizes is positive.
proof fn lemma_size_prod_pos(v: ShapeView, env: Map<char, int>, j: int)
    requires
        0 <= j <= v.rank(),
        forall|k: int| 0 <= k < v.rank() ==> logical_size(v, k, env) > 0,
    ensures
        size_prod_from(v, j, env) > 0,
    decreases v.rank() as int - j,
{
    if j < v.rank() {
        lemma_size_prod_pos(v, env, j + 1);
        assert(logical_size(v, j, env) * size_prod_from(v, j + 1, env) > 0) by (nonlinear_arith)
            requires
                logical_size(v, j, env) > 0,
                size_prod_from(v, j + 1, env) > 0,
        ;
    }
}

/// On a fusable view every position is valid: no padding or slice ever
/// excludes anything.
proof fn lemma_fusable_valid(v: ShapeView, i: int, env: Map<char, int>, j: int)
    requires
        v.wf(),
        v.fusable(),
        0 <= j <= v.rank(),
    ensures
        valid_from(v, j, i, env),
    decreases v.rank() as int - j,
{
    if j < v.rank() {
        let sd = v.indexes[j] as int;
        assert(v.padding[sd].0 == 0 && v.padding[sd].1 == 0);
        assert(v.mask[sd].0 == 0 && v.mask[sd].1 == NO_SLICE_END);
        assert(!has_bounds(v, sd));
        lemma_fusable_valid(v, i, env, j + 1);
    }
}

/// The storage offset from dimension `j` on is the flat position reduced
/// modulo the remaining extent: the div/mod decomposition of row-major
/// addressing.
proof fn lemma_identity_from(v: ShapeView, i: int, env: Map<char, int>, j: int)
    requires
        v.wf(),
        v.fusable(),
        0 <= j <= v.rank(),
        forall|k: int| 0 <= k < v.rank() ==> logical_size(v, k, env) > 0,
        0 <= i,
    ensures
        storage_index_from(v, j, i, env) == i % size_prod_from(v, j, env),
    decreases v.rank() as int - j,
{
    if j == v.rank() {
        assert(size_prod_from(v, j, env) == 1);
        assert(i % 1 == 0) by (nonlinear_arith);
    } else {
        lemma_identity_from(v, i, env, j + 1);
        let a = logical_size(v, j, env);
        let b = size_prod_from(v, j + 1, env);
        lemma_size_prod_pos(v, env, j + 1);
        let sd = v.indexes[j] as int;
        assert(sd == j);
        assert(!v.fake[sd]);
        assert(v.mask[sd].0 == 0 && v.padding[sd].0 == 0);
        lemma_fusable_strides(v, env, j + 1);
        vstd::arithmetic::div_mod::lemma_mod_breakdown(i, b, a);
        assert(position_at(v, j, i, env) == (i / b) % a);
        assert(storage_index_from(v, j, i, env) == ((i / b) % a) * b + i % b);
        assert(size_prod_from(v, j, env) == a * b);
        assert(b * a == a * b) by (nonlinear_arith);
        assert(((i / b) % a) * b == b * ((i / b) % a)) by (nonlinear_arith);
    }
}

/// The short-circuit is sound: a contiguous, unpadded, unsliced view maps
/// every in-range flat position to exactly itself, and marks every such
/// position valid — the identity index and the always-true validity.
pub proof fn lemma_contiguous_identity(v: ShapeView, i: int, env: Map<char, int>)
    requires
        v.wf(),
        v.fusable(),
        forall|k: int| 0 <= k < v.rank() ==> logical_size(v, k, env) > 0,
        0 <= i < size_prod_from(v, 0, env),
    ensures
        storage_index(v, i, env) == i,
        valid_index(v, i, env),
{
    lemma_identity_from(v, i, env, 0);
    lemma_size_prod_pos(v, env, 0);
    vstd::arithmetic::div_mod::lemma_small_mod(i as nat, size_prod_from(v, 0, env) as nat);
    lemma_fusable_valid(v, i, env, 0);
}

/// `acc` extended by `c` unless it already holds it.
pub open spec fn dedup_append(acc: Seq<char>, c: char) -> Seq<char> {
    if acc.contains(c) {
        acc
    } else {
        acc.push(c)
    }
}

/// The symbols of `dims` appended to `acc` in order of first occurrence,
/// without duplicates.
pub open spec fn collect_dim_syms(acc: Seq<char>, dims: Seq<Dim>) -> Seq<char>
    decreases dims.len(),
{
    if dims.len() == 0 {
        acc
    } else {
        let prev = collect_dim_syms(acc, dims.drop_last());
        match dims.last() {
            Dim::Sym(c) => dedup_append(prev, c),
            Dim::Known(_) => prev,
        }
    }
}

/// The symbols of all the views' dimensions appended to `acc`, views in
/// order, each view's dimensions in order, without duplicates.
pub open spec fn collect_shape_syms(acc: Seq<char>, shapes: Seq<ShapeView>) -> Seq<char>
    decreases shapes.len(),
{
    if shapes.len() == 0 {
        acc
    } else {
        collect_dim_syms(collect_shape_syms(acc, shapes.drop_last()), shapes.last().dims)
    }
}

/// No entry occurs twice.
pub open spec fn distinct_seq(s: Seq<char>) -> bool {
    forall|i: int, j: int| 0 <= i < j < s.len() ==> s[i] != s[j]
}

/// Collecting a dimension list keeps entries distinct and adds exactly its
/// symbols.
pub proof fn lemma_collect_dim_props(acc: Seq<char>, dims: Seq<Dim>)
    requires
        distinct_seq(acc),
    ensures
        distinct_seq(collect_dim_syms(acc, dims)),
        forall|c: char|
            #![trigger collect_dim_syms(acc, dims).contains(c)]
            collect_dim_syms(acc, dims).contains(c) <==> (acc.contains(c) || exists|i: int|
                0 <= i < dims.len() && dims[i] == Dim::Sym(c)),
    decreases dims.len(),
{
    if dims.len() > 0 {
        lemma_collect_dim_props(acc, dims.drop_last());
        let prev = collect_dim_syms(acc, dims.drop_last());
        assert(forall|i: int|
            0 <= i < dims.drop_last().len() ==> (#[trigger] dims.drop_last()[i]) == dims[i]);
        assert forall|c: char|
            #![trigger collect_dim_syms(acc, dims).contains(c)]
            collect_dim_syms(acc, dims).contains(c) <==> (acc.contains(c) || exists|i: int|
                0 <= i < dims.len() && dims[i] == Dim::Sym(c)) by {
            match dims.last() {
                Dim::Sym(cl) => {
                    if prev.contains(c) {
                        assert(collect_dim_syms(acc, dims).contains(c)) by {
                            let w = choose|w: int| 0 <= w < prev.len() && prev[w] == c;
                            assert(collect_dim_syms(acc, dims)[w] == c);
                        }
                    }
                    if c == cl {
                        assert(dims[dims.len() - 1] == Dim::Sym(c));
                        assert(collect_dim_syms(acc, dims).contains(c)) by {
                            if prev.contains(c) {
                            } else {
                                assert(collect_dim_syms(acc, dims) == prev.push(c));
                                assert(collect_dim_syms(acc, dims)[prev.len() as int] == c);
                            }
                        }
                    }
                    if collect_dim_syms(acc, dims).contains(c) && c != cl {
                        assert(prev.contains(c)) by {
                            let w = choose|w: int|
                                0 <= w < collect_dim_syms(acc, dims).len() && collect_dim_syms(
                                    acc,
                                    dims,
                                )[w] == c;
                            if prev.contains(cl) {
                                assert(prev[w] == c);
                            } else {
                                assert(w < prev.len());
                                assert(prev[w] == c);
                            }
                        }
                    }
                    if (exists|i: int| 0 <= i < dims.len() && dims[i] == Dim::Sym(c)) && c != cl {
                        let i = choose|i: int| 0 <= i < dims.len() && dims[i] == Dim::Sym(c);
                        assert(i < dims.len() - 1);
                        assert(dims.drop_last()[i] == Dim::Sym(c));
                    }
                },
                Dim::Known(_) => {
                    if exists|i: int| 0 <= i < dims.len() && dims[i] == Dim::Sym(c) {
                        let i = choose|i: int| 0 <= i < dims.len() && dims[i] == Dim::Sym(c);
                        assert(i < dims.len() - 1);
                        assert(dims.drop_last()[i] == Dim::Sym(c));
                    }
                },
            }
        }
        assert(distinct_seq(collect_dim_syms(acc, dims))) by {
            match dims.last() {
                Dim::Sym(cl) => {
                    if !prev.contains(cl) {
                        assert(collect_dim_syms(acc, dims) == prev.push(cl));
                        assert forall|i: int, j: int|
                            0 <= i < j < collect_dim_syms(acc, dims).len() implies collect_dim_syms(
                            acc,
                            dims,
                        )[i] != collect_dim_syms(acc, dims)[j] by {
                            if j == prev.len() as int {
                                assert(prev[i] == collect_dim_syms(acc, dims)[i]);
                                if collect_dim_syms(acc, dims)[i] == cl {
                                    assert(prev.contains(prev[i]));
                                }
                            }
                        }
                    }
                },
                Dim::Known(_) => {},
            }
        }
    }
}

/// Collecting a list of views keeps entries distinct and adds exactly
/// their symbols.
pub proof fn lemma_collect_shape_props(acc: Seq<char>, shapes: Seq<ShapeView>)
    requires
        distinct_seq(acc),
    ensures
        distinct_seq(collect_shape_syms(acc, shapes)),
        forall|c: char|
            #![trigger collect_shape_syms(acc, shapes).contains(c)]
            collect_shape_syms(acc, shapes).contains(c) <==> (acc.contains(c) || exists|s: int, i: int|
                0 <= s < shapes.len() && 0 <= i < shapes[s].dims.len() && shapes[s].dims[i]
                    == Dim::Sym(c)),
    decreases shapes.len(),
{
    if shapes.len() > 0 {
        lemma_collect_shape_props(acc, shapes.drop_last());
        let prev = collect_shape_syms(acc, shapes.drop_last());
        lemma_collect_dim_props(prev, shapes.last().dims);
        assert(forall|s: int|
            0 <= s < shapes.drop_last().len() ==> (#[trigger] shapes.drop_last()[s]) == shapes[s]);
        assert forall|c: char|
            #![trigger collect_shape_syms(acc, shapes).contains(c)]
            collect_shape_syms(acc, shapes).contains(c) <==> (acc.contains(c) || exists|s: int, i: int|
                0 <= s < shapes.len() && 0 <= i < shapes[s].dims.len() && shapes[s].dims[i]
                    == Dim::Sym(c)) by {
            if collect_shape_syms(acc, shapes).contains(c) {
                if prev.contains(c) {
                    if !acc.contains(c) {
                        let (s, i) = choose|s: int, i: int|
                            0 <= s < shapes.drop_last().len() && 0 <= i < shapes.drop_last()[
                                s
                            ].dims.len() && shapes.drop_last()[s].dims[i] == Dim::Sym(c);
                        assert(shapes[s].dims[i] == Dim::Sym(c));
                    }
                } else {
                    let i = choose|i: int|
                        0 <= i < shapes.last().dims.len() && shapes.last().dims[i] == Dim::Sym(c);
                    assert(shapes[shapes.len() - 1].dims[i] == Dim::Sym(c));
                }
            }
            if acc.contains(c) {
                assert(prev.contains(c));
            }
            if exists|s: int, i: int|
                0 <= s < shapes.len() && 0 <= i < shapes[s].dims.len() && shapes[s].dims[i]
                    == Dim::Sym(c) {
                let (s, i) = choose|s: int, i: int|
                    0 <= s < shapes.len() && 0 <= i < shapes[s].dims.len() && shapes[s].dims[i]
                        == Dim::Sym(c);
                if s < shapes.len() - 1 {
                    assert(shapes.drop_last()[s].dims[i] == Dim::Sym(c));
                    assert(prev.contains(c));
                } else {
                    assert(shapes.last().dims[i] == Dim::Sym(c));
                }
            }
        }
    }
}

/// Whether `v` holds `c`.
fn contains_char(v: &Vec<char>, c: char) -> (r: bool)
    ensures
        r == v@.contains(c),
{
    let n = v.len();
    let mut i: usize = 0;
    while i < n
        invariant
            i <= n,
            n == v@.len(),
            forall|k: int| 0 <= k < i ==> v@[k] != c,
        decreases n - i,
    {
        if v[i] == c {
            return true;
        }
        i = i + 1;
    }
    false
}

/// The dynamic symbols the given views mention, deduplicated, in order of
/// first occurrence: the extra kernel parameters bound at launch time from
/// the symbol table.
pub fn dyn_symbols(shapes: &Vec<ShapeTracker>) -> (r: Vec<char>)
    ensures
        r@ == collect_shape_syms(Seq::empty(), shapes@.map_values(|s: ShapeTracker| s@)),
        distinct_seq(r@),
        forall|c: char|
            #![trigger r@.contains(c)]
            r@.contains(c) <==> exists|s: int, i: int|
                0 <= s < shapes@.len() && 0 <= i < shapes@[s]@.dims.len() && shapes@[s]@.dims[i]
                    == Dim::Sym(c),
{
    let ghost views = shapes@.map_values(|s: ShapeTracker| s@);
    let n = shapes.len();
    let mut acc: Vec<char> = Vec::new();
    let mut s: usize = 0;
    proof {
        assert(views.take(0) =~= Seq::<ShapeView>::empty());
    }
    while s < n
        invariant
            s <= n,
            n == shapes@.len(),
            views == shapes@.map_values(|s: ShapeTracker| s@),
            acc@ == collect_shape_syms(Seq::empty(), views.take(s as int)),
        decreases n - s,
    {
        let ghost base = acc@;
        let nd = shapes[s].dims.len();
        let ghost dims = views[s as int].dims;
        let mut i: usize = 0;
        proof {
            assert(dims.take(0) =~= Seq::<Dim>::empty());
            assert(collect_dim_syms(base, dims.take(0)) == base);
        }
        while i < nd
            invariant
                i <= nd,
                s < n,
                n == shapes@.len(),
                views == shapes@.map_values(|s: ShapeTracker| s@),
                dims == views[s as int].dims,
                nd == dims.len(),
                acc@ == collect_dim_syms(base, dims.take(i as int)),
            decreases nd - i,
        {
            proof {
                assert(dims.take(i as int + 1).drop_last() =~= dims.take(i as int));
                assert(dims.take(i as int + 1).last() == dims[i as int]);
            }
            match shapes[s].dims[i] {
                Dim::Sym(c) => {
                    if !contains_char(&acc, c) {
                        acc.push(c);
                    }
                },
                Dim::Known(_) => {},
            }
            proof {
                assert(acc@ == collect_dim_syms(base, dims.take(i as int + 1)));
            }
            i = i + 1;
        }
        proof {
            assert(dims.take(nd as int) =~= dims);
            assert(views.take(s as int + 1).drop_last() =~= views.take(s as int));
            assert(views.take(s as int + 1).last() == views[s as int]);
            assert(acc@ == collect_shape_syms(Seq::empty(), views.take(s as int + 1)));
        }
        s = s + 1;
    }
    proof {
        assert(views.take(n as int) =~= views);
        lemma_collect_shape_props(Seq::empty(), views);
        assert forall|c: char| #![trigger acc@.contains(c)] acc@.contains(c) <==> exists|s: int, i: int|
            0 <= s < shapes@.len() && 0 <= i < shapes@[s]@.dims.len() && shapes@[s]@.dims[i]
                == Dim::Sym(c) by {
            if acc@.contains(c) {
                assert(!Seq::<char>::empty().contains(c));
                let (sx, ix) = choose|sx: int, ix: int|
                    0 <= sx < views.len() && 0 <= ix < views[sx].dims.len() && views[sx].dims[ix]
                        == Dim::Sym(c);
                assert(shapes@[sx]@.dims[ix] == Dim::Sym(c));
            }
            if exists|sx: int, ix: int|
                0 <= sx < shapes@.len() && 0 <= ix < shapes@[sx]@.dims.len() && shapes@[sx]@.dims[ix]
                    == Dim::Sym(c) {
                let (sx, ix) = choose|sx: int, ix: int|
                    0 <= sx < shapes@.len() && 0 <= ix < shapes@[sx]@.dims.len()
                        && shapes@[sx]@.dims[ix] == Dim::Sym(c);
                assert(views[sx].dims[ix] == Dim::Sym(c));
            }
        }
    }
    acc
}

} // verus!
