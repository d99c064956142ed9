//! The gather fusion pass: the embedding-lookup idiom
//! `reduce_sum(mul(eq(arange, index), table))` becomes one fused gather
//! operator. The equality at the heart of the one-hot comparison is itself
//! the fused operator the equality pass produces, so this pass runs after
//! it. The table's trailing (embedding) dimension must be a concrete size:
//! when it is dynamic, the subgraph is left untouched.

use vstd::prelude::*;

use crate::fusion::{
    count_op, find_edge_to_slot, find_input_edge, input_ok, input_ok_check,
    lemma_count_op_at_least_one, lemma_count_op_le_len, lemma_count_op_pointwise_le,
    lemma_count_op_push, lemma_count_op_update_none,
};
use crate::graph::{EdgeView, Graph, GraphView, Op};
use crate::shape::{Dim, ShapeView};

verus! {

/// The view's trailing dimension exists and is a concrete size.
pub open spec fn concrete_trailing(v: ShapeView) -> bool {
    v.rank() > 0 && v.logical_dim(v.rank() as int - 1) is Known
}

/// Edge `e` carries the embedding table into `mul`'s slot 1 with a concrete
/// trailing dimension.
pub open spec fn table_ok(g: GraphView, e: int, mul: usize, r: usize) -> bool {
    &&& 0 <= e < g.edges.len()
    &&& g.edges[e].dst == mul
    &&& g.edges[e].input_slot == 1
    &&& g.edges[e].src != r
    &&& concrete_trailing(g.edges[e].view)
}

/// A structural match of the gather idiom rooted at `r`, with its guard and
/// the concrete-trailing-dimension precondition. `e1` is `mul -> r`
/// (slot 0), `e2` is `eq -> mul` (slot 0), `e3` carries the table into
/// `mul` (slot 1), `e4` is `arange -> eq` (slot 0), and `e5` carries the
/// index values into `eq` (slot 1).
pub open spec fn gather_binding_ok(
    g: GraphView,
    r: usize,
    e1: int,
    e2: int,
    e3: int,
    e4: int,
    e5: int,
) -> bool {
    &&& g.live(r as int)
    &&& g.op_of(r as int) == Op::SumReduce
    &&& !g.kept(r as int)
    &&& input_ok(g, e1, r, 0, Op::Mul, r)
    &&& input_ok(g, e2, g.edges[e1].src, 0, Op::FusedEqual, g.edges[e1].src)
    &&& table_ok(g, e3, g.edges[e1].src, r)
    &&& input_ok(g, e4, g.edges[e2].src, 0, Op::ARange, g.edges[e2].src)
    &&& 0 <= e5 < g.edges.len()
    &&& g.edges[e5].dst == g.edges[e2].src
    &&& g.edges[e5].input_slot == 1
    &&& g.edges[e5].src != r
}

/// Whether the gather idiom has an applicable match rooted at `r`.
pub open spec fn gather_applicable_at(g: GraphView, r: usize) -> bool {
    exists|e1: int, e2: int, e3: int, e4: int, e5: int|
        #[trigger] gather_binding_ok(g, r, e1, e2, e3, e4, e5)
}

/// Whether the gather idiom has any applicable match.
pub open spec fn gather_applicable(g: GraphView) -> bool {
    exists|r: usize| #[trigger] gather_applicable_at(g, r)
}

/// One applicable match of the gather idiom.
pub struct GatherMatch {
    pub root: usize,
    pub mul: usize,
    pub eqn: usize,
    pub arange: usize,
    pub e_mul: usize,
    pub e_eq: usize,
    pub e_table: usize,
    pub e_arange: usize,
    pub e_index: usize,
    pub embed_dim: u64,
}

/// First table edge for `mul`: into slot 1, not from `r`, with a concrete
/// trailing dimension.
fn find_table_edge(g: &Graph, mul: usize, r: usize) -> (res: Option<(usize, u64)>)
    requires
        g@.wf(),
    ensures
        match res {
            Some(p) => table_ok(g@, p.0 as int, mul, r) && g@.edges[p.0 as int].view.logical_dim(
                g@.edges[p.0 as int].view.rank() as int - 1,
            ) == Dim::Known(p.1),
            None => forall|e3: int| !(#[trigger] table_ok(g@, e3, mul, r)),
        },
{
    let ne = g.edges.len();
    let mut k: usize = 0;
    while k < ne
        invariant
            k <= ne,
            ne == g@.edges.len(),
            g@.wf(),
            forall|j: int| 0 <= j < k ==> !(#[trigger] table_ok(g@, j, mul, r)),
        decreases ne - k,
    {
        let e_dst = g.edges[k].dst;
        let e_slot = g.edges[k].input_slot;
        let e_src = g.edges[k].src;
        if e_dst == mul && e_slot == 1 && e_src != r {
            proof {
                assert(g@.edges[k as int].view.wf());
            }
            let nd = g.edges[k].view.n_dims();
            if nd > 0 {
                match g.edges[k].view.dim_at(nd - 1) {
                    Dim::Known(d) => {
                        proof {
                            assert(table_ok(g@, k as int, mul, r));
                        }
                        return Some((k, d));
                    },
                    Dim::Sym(_) => {
                        proof {
                            assert(!concrete_trailing(g@.edges[k as int].view));
                        }
                    },
                }
            } else {
                proof {
                    assert(!concrete_trailing(g@.edges[k as int].view));
                }
            }
        }
        k = k + 1;
    }
    None
}

/// Search for an applicable gather match rooted at `r`.
fn check_gather_at(g: &Graph, r: usize) -> (res: Option<GatherMatch>)
    requires
        g@.wf(),
        r < g@.n(),
    ensures
        match res {
            Some(mm) => mm.root == r && gather_binding_ok(
                g@,
                r,
                mm.e_mul as int,
                mm.e_eq as int,
                mm.e_table as int,
                mm.e_arange as int,
                mm.e_index as int,
            ) && mm.mul == g@.edges[mm.e_mul as int].src && mm.eqn == g@.edges[mm.e_eq as int].src
                && mm.arange == g@.edges[mm.e_arange as int].src && g@.edges[
                mm.e_table as int
            ].view.logical_dim(g@.edges[mm.e_table as int].view.rank() as int - 1) == Dim::Known(
                mm.embed_dim,
            ),
            None => !gather_applicable_at(g@, r),
        },
{
    let is_root = match g.op(r) {
        Some(Op::SumReduce) => true,
        _ => false,
    };
    if !is_root || g.is_kept(r) {
        proof {
            assert forall|e1: int, e2: int, e3: int, e4: int, e5: int| !(
            #[trigger] gather_binding_ok(g@, r, e1, e2, e3, e4, e5)) by {}
        }
        return None;
    }
    let ne = g.edges.len();
    let mut e1: usize = 0;
    while e1 < ne
        invariant
            e1 <= ne,
            ne == g@.edges.len(),
            g@.wf(),
            g@.live(r as int),
            g@.op_of(r as int) == Op::SumReduce,
            !g@.kept(r as int),
            forall|j: int, e2: int, e3: int, e4: int, e5: int|
                #![trigger input_ok(g@, j, r, 0, Op::Mul, r), input_ok(g@, e2, g@.edges[j].src, 0, Op::FusedEqual, g@.edges[j].src), table_ok(g@, e3, g@.edges[j].src, r), input_ok(g@, e4, g@.edges[e2].src, 0, Op::ARange, g@.edges[e2].src), g@.edges[e5]]
                0 <= j < e1 ==> !(input_ok(g@, j, r, 0, Op::Mul, r) && input_ok(
                    g@,
                    e2,
                    g@.edges[j].src,
                    0,
                    Op::FusedEqual,
                    g@.edges[j].src,
                ) && table_ok(g@, e3, g@.edges[j].src, r) && input_ok(
                    g@,
                    e4,
                    g@.edges[e2].src,
                    0,
                    Op::ARange,
                    g@.edges[e2].src,
                ) && 0 <= e5 < g@.edges.len() && g@.edges[e5].dst == g@.edges[e2].src
                    && g@.edges[e5].input_slot == 1 && g@.edges[e5].src != r),
        decreases ne - e1,
    {
        if input_ok_check(g, e1, r, 0, Op::Mul, r) {
            let mul = g.edges[e1].src;
            match find_table_edge(g, mul, r) {
                Some(tb) => {
                    let mut e2: usize = 0;
                    while e2 < ne
                        invariant
                            e2 <= ne,
                            ne == g@.edges.len(),
                            g@.wf(),
                            g@.live(r as int),
                            g@.op_of(r as int) == Op::SumReduce,
                            !g@.kept(r as int),
                            e1 < g@.edges.len(),
                            mul == g@.edges[e1 as int].src,
                            input_ok(g@, e1 as int, r, 0, Op::Mul, r),
                            table_ok(g@, tb.0 as int, mul, r),
                            g@.edges[tb.0 as int].view.logical_dim(
                                g@.edges[tb.0 as int].view.rank() as int - 1,
                            ) == Dim::Known(tb.1),
                            forall|j: int, e4: int, e5: int|
                                #![trigger input_ok(g@, j, mul, 0, Op::FusedEqual, mul), input_ok(g@, e4, g@.edges[j].src, 0, Op::ARange, g@.edges[j].src), g@.edges[e5]]
                                0 <= j < e2 ==> !(input_ok(g@, j, mul, 0, Op::FusedEqual, mul)
                                    && input_ok(
                                    g@,
                                    e4,
                                    g@.edges[j].src,
                                    0,
                                    Op::ARange,
                                    g@.edges[j].src,
                                ) && 0 <= e5 < g@.edges.len() && g@.edges[e5].dst == g@.edges[j].src
                                    && g@.edges[e5].input_slot == 1 && g@.edges[e5].src != r),
                        decreases ne - e2,
                    {
                        if input_ok_check(g, e2, mul, 0, Op::FusedEqual, mul) {
                            let eqn = g.edges[e2].src;
                            match find_input_edge(g, eqn, 0, Op::ARange, eqn) {
                                Some(e4) => {
                                    match find_edge_to_slot(g, eqn, 1, r) {
                                        Some(e5) => {
                                            let arange = g.edges[e4].src;
                                            proof {
                                                assert(gather_binding_ok(
                                                    g@,
                                                    r,
                                                    e1 as int,
                                                    e2 as int,
                                                    tb.0 as int,
                                                    e4 as int,
                                                    e5 as int,
                                                ));
                                            }
                                            return Some(GatherMatch {
                                                root: r,
                                                mul,
                                                eqn,
                                                arange,
                                                e_mul: e1,
                                                e_eq: e2,
                                                e_table: tb.0,
                                                e_arange: e4,
                                                e_index: e5,
                                                embed_dim: tb.1,
                                            });
                                        },
                                        None => {},
                                    }
                                },
                                None => {},
                            }
                        }
                        e2 = e2 + 1;
                    }
                },
                None => {},
            }
        }
        e1 = e1 + 1;
    }
    proof {
        assert forall|e1x: int, e2: int, e3: int, e4: int, e5: int| !(
        #[trigger] gather_binding_ok(g@, r, e1x, e2, e3, e4, e5)) by {}
        assert(!gather_applicable_at(g@, r));
    }
    None
}

/// Search the whole graph for the first applicable gather match.
fn find_gather_match(g: &Graph) -> (res: Option<GatherMatch>)
    requires
        g@.wf(),
    ensures
        match res {
            Some(mm) => mm.root < g@.n() && gather_binding_ok(
                g@,
                mm.root,
                mm.e_mul as int,
                mm.e_eq as int,
                mm.e_table as int,
                mm.e_arange as int,
                mm.e_index as int,
            ) && mm.mul == g@.edges[mm.e_mul as int].src && mm.eqn == g@.edges[mm.e_eq as int].src
                && mm.arange == g@.edges[mm.e_arange as int].src && g@.edges[
                mm.e_table as int
            ].view.logical_dim(g@.edges[mm.e_table as int].view.rank() as int - 1) == Dim::Known(
                mm.embed_dim,
            ),
            None => !gather_applicable(g@),
        },
{
    let n = g.ops.len();
    let mut r: usize = 0;
    while r < n
        invariant
            r <= n,
            n == g@.n(),
            g@.wf(),
            forall|x: usize| x < r ==> !(#[trigger] gather_applicable_at(g@, x)),
        decreases n - r,
    {
        match check_gather_at(g, r) {
            Some(mm) => {
                return Some(mm);
            },
            None => {},
        }
        r = r + 1;
    }
    proof {
        assert forall|x: usize| !(#[trigger] gather_applicable_at(g@, x)) by {
            if x < n {
            } else {
                assert forall|e1: int, e2: int, e3: int, e4: int, e5: int| !(
                #[trigger] gather_binding_ok(g@, x, e1, e2, e3, e4, e5)) by {}
            }
        }
    }
    None
}

/// Apply one gather rewrite: synthesize the fused gather with the index and
/// table views and the concrete embedding width, rewire the edges leaving
/// the terminal reduction, remove it, and safe-delete the matched
/// intermediates.
fn apply_gather(g: &mut Graph, mm: &GatherMatch)
    requires
        old(g)@.wf(),
        gather_binding_ok(
            old(g)@,
            mm.root,
            mm.e_mul as int,
            mm.e_eq as int,
            mm.e_table as int,
            mm.e_arange as int,
            mm.e_index as int,
        ),
        mm.mul == old(g)@.edges[mm.e_mul as int].src,
        mm.eqn == old(g)@.edges[mm.e_eq as int].src,
        mm.arange == old(g)@.edges[mm.e_arange as int].src,
        old(g)@.edges[mm.e_table as int].view.logical_dim(
            old(g)@.edges[mm.e_table as int].view.rank() as int - 1,
        ) == Dim::Known(mm.embed_dim),
    ensures
        final(g)@.wf(),
        final(g)@.n() == old(g)@.n() + 1,
        final(g)@.keep == old(g)@.keep.push(false),
        final(g)@.ops[mm.root as int] is None,
        final(g)@.ops[old(g)@.n() as int] == Some(Op::FusedGather(mm.embed_dim)),
        forall|x: int|
            0 <= x < old(g)@.n() && x != mm.root as int && x != mm.mul as int && x != mm.eqn as int
                && x != mm.arange as int ==> final(g)@.ops[x] == old(g)@.ops[x],
        count_op(final(g)@.ops, Op::SumReduce) < count_op(old(g)@.ops, Op::SumReduce),
        final(g)@.edges.contains(
            EdgeView {
                src: old(g)@.edges[mm.e_index as int].src,
                dst: old(g)@.n() as usize,
                input_slot: 0,
                output_slot: old(g)@.edges[mm.e_index as int].output_slot,
                view: old(g)@.edges[mm.e_index as int].view,
            },
        ),
        final(g)@.edges.contains(
            EdgeView {
                src: old(g)@.edges[mm.e_table as int].src,
                dst: old(g)@.n() as usize,
                input_slot: 1,
                output_slot: old(g)@.edges[mm.e_table as int].output_slot,
                view: old(g)@.edges[mm.e_table as int].view,
            },
        ),
{
    let ghost g0 = old(g)@;
    proof {
        assert(g0.op_of(mm.root as int) == Op::SumReduce);
        assert(g0.op_of(mm.mul as int) == Op::Mul);
        assert(g0.op_of(mm.eqn as int) == Op::FusedEqual);
        assert(g0.op_of(mm.arange as int) == Op::ARange);
        assert(mm.root != mm.mul && mm.root != mm.eqn && mm.root != mm.arange);
        assert(mm.mul != mm.eqn && mm.mul != mm.arange && mm.eqn != mm.arange);
        assert(g0.live(mm.mul as int) && g0.live(mm.eqn as int) && g0.live(mm.arange as int));
    }
    let idx_src = g.edges[mm.e_index].src;
    let idx_out = g.edges[mm.e_index].output_slot;
    let idx_view = g.edges[mm.e_index].view.clone();
    let tb_src = g.edges[mm.e_table].src;
    let tb_out = g.edges[mm.e_table].output_slot;
    let tb_view = g.edges[mm.e_table].view.clone();
    proof {
        assert(g0.live(idx_src as int) && g0.live(tb_src as int));
        assert(idx_view@.wf() && tb_view@.wf());
        assert(idx_src != mm.root && tb_src != mm.root);
    }
    let fused = g.add_node(Op::FusedGather(mm.embed_dim));
    proof {
        assert(g@.live(idx_src as int) && g@.live(tb_src as int) && g@.live(fused as int));
    }
    g.add_edge(idx_src, fused, 0, idx_out, idx_view);
    g.add_edge(tb_src, fused, 1, tb_out, tb_view);
    let ghost g3 = g@;
    let ghost ea = EdgeView {
        src: g0.edges[mm.e_index as int].src,
        dst: fused,
        input_slot: 0,
        output_slot: g0.edges[mm.e_index as int].output_slot,
        view: g0.edges[mm.e_index as int].view,
    };
    let ghost eb = EdgeView {
        src: g0.edges[mm.e_table as int].src,
        dst: fused,
        input_slot: 1,
        output_slot: g0.edges[mm.e_table as int].output_slot,
        view: g0.edges[mm.e_table as int].view,
    };
    proof {
        assert(g3.edges == g0.edges.push(ea).push(eb));
        assert(g3.live(fused as int));
    }
    g.move_outgoing_edge(mm.root, fused);
    let ghost g4 = g@;
    proof {
        assert(g4.edges[g0.edges.len() as int] == ea) by {
            assert(g3.edges[g0.edges.len() as int] == ea);
            assert(ea.src != mm.root);
        }
        assert(g4.edges[g0.edges.len() as int + 1] == eb) by {
            assert(g3.edges[g0.edges.len() as int + 1] == eb);
            assert(eb.src != mm.root);
        }
    }
    g.remove_node(mm.root);
    let ghost g5 = g@;
    let mut candidates: Vec<usize> = Vec::new();
    candidates.push(mm.mul);
    candidates.push(mm.eqn);
    candidates.push(mm.arange);
    proof {
        assert(forall|j: int|
            0 <= j < candidates@.len() ==> (#[trigger] candidates@[j]) < g5.n());
        assert forall|x: usize| candidates@.contains(x) implies (x == mm.mul || x == mm.eqn || x
            == mm.arange) by {
            let i = choose|i: int| 0 <= i < candidates@.len() && candidates@[i] == x;
        }
    }
    g.try_delete(&candidates);
    proof {
        let g6 = g@;
        assert(g5.ops == g0.ops.push(Some(Op::FusedGather(mm.embed_dim))).update(
            mm.root as int,
            None,
        ));
        assert(fused as int == g0.n());
        assert forall|x: int|
            0 <= x < g0.n() && x != mm.root as int && x != mm.mul as int && x != mm.eqn as int && x
                != mm.arange as int implies g6.ops[x] == g0.ops[x] by {
            assert(!candidates@.contains(x as usize));
            assert(g6.ops[x] == g5.ops[x]);
        }
        assert(g6.ops[mm.root as int] is None) by {
            assert(!candidates@.contains(mm.root));
            assert(g6.ops[mm.root as int] == g5.ops[mm.root as int]);
        }
        assert(g6.ops[fused as int] == Some(Op::FusedGather(mm.embed_dim))) by {
            assert(!candidates@.contains(fused));
            assert(g6.ops[fused as int] == g5.ops[fused as int]);
        }
        assert(count_op(g6.ops, Op::SumReduce) < count_op(g0.ops, Op::SumReduce)) by {
            lemma_count_op_push(g0.ops, Some(Op::FusedGather(mm.embed_dim)), Op::SumReduce);
            lemma_count_op_update_none(
                g0.ops.push(Some(Op::FusedGather(mm.embed_dim))),
                mm.root as int,
                Op::SumReduce,
            );
            assert(g0.ops.push(Some(Op::FusedGather(mm.embed_dim)))[mm.root as int] == Some(
                Op::SumReduce,
            ));
            assert(count_op(g5.ops, Op::SumReduce) == count_op(g0.ops, Op::SumReduce) - 1);
            assert(forall|x: int|
                0 <= x < g6.ops.len() ==> (#[trigger] g6.ops[x]) == g5.ops[x]
                    || g6.ops[x] is None);
            lemma_count_op_pointwise_le(g5.ops, g6.ops, Op::SumReduce);
        }
        assert(g6.edges.contains(ea)) by {
            assert(g4.edges[g0.edges.len() as int] == ea);
            assert(ea.src != mm.root && ea.dst != mm.root);
            crate::graph::lemma_edges_without_mem(g4.edges, mm.root);
            assert(g5.edges.contains(ea));
            let w = choose|w: int| 0 <= w < g5.edges.len() && g5.edges[w] == ea;
            assert(!candidates@.contains(g5.edges[w].dst));
            assert(g6.live(ea.src as int));
            assert(g6.ops[ea.dst as int] == g5.ops[ea.dst as int]);
            crate::graph::lemma_edges_alive_mem(g5.edges, g6.ops);
            assert(g6.edges.contains(ea));
        }
        assert(g6.edges.contains(eb)) by {
            assert(g4.edges[g0.edges.len() as int + 1] == eb);
            assert(eb.src != mm.root && eb.dst != mm.root);
            crate::graph::lemma_edges_without_mem(g4.edges, mm.root);
            assert(g5.edges.contains(eb));
            let w = choose|w: int| 0 <= w < g5.edges.len() && g5.edges[w] == eb;
            assert(!candidates@.contains(g5.edges[w].dst));
            assert(g6.live(eb.src as int));
            assert(g6.ops[eb.dst as int] == g5.ops[eb.dst as int]);
            crate::graph::lemma_edges_alive_mem(g5.edges, g6.ops);
            assert(g6.edges.contains(eb));
        }
    }
}

/// The gather fusion pass: rewrite every applicable occurrence of the
/// one-hot embedding lookup into a single fused gather operator.
#[derive(Clone, Copy, Default, Debug)]
pub struct GatherCompiler;

impl GatherCompiler {
    /// Run the pass to a fixed point. On return no applicable match of the
    /// gather idiom remains; a graph that had none to begin with comes back
    /// unchanged with zero rewrites, so re-running the pass on its own
    /// output performs zero further rewrites. A matching subgraph whose
    /// table has a dynamic trailing dimension is never applicable, so it is
    /// left intact. Nodes marked must-survive are never deleted and keep
    /// their operator.
    pub fn compile(&self, g: &mut Graph) -> (rewrites: usize)
        requires
            old(g)@.wf(),
        ensures
            final(g)@.wf(),
            !gather_applicable(final(g)@),
            !gather_applicable(old(g)@) ==> final(g)@ == old(g)@ && rewrites == 0,
            final(g)@.n() >= old(g)@.n(),
            forall|x: int| 0 <= x < old(g)@.keep.len() ==> final(g)@.keep[x] == old(g)@.keep[x],
            forall|x: int|
                0 <= x < old(g)@.n() && old(g)@.live(x) && old(g)@.kept(x) ==> final(g)@.live(x)
                    && final(g)@.ops[x] == old(g)@.ops[x],
    {
        let mut rewrites: usize = 0;
        let bound = g.ops.len();
        proof {
            lemma_count_op_le_len(old(g)@.ops, Op::SumReduce);
        }
        loop
            invariant
                g@.wf(),
                old(g)@.wf(),
                g@.n() >= old(g)@.n(),
                g@.keep.len() >= old(g)@.keep.len(),
                count_op(old(g)@.ops, Op::SumReduce) <= bound,
                forall|x: int| 0 <= x < old(g)@.keep.len() ==> g@.keep[x] == old(g)@.keep[x],
                forall|x: int|
                    0 <= x < old(g)@.n() && old(g)@.live(x) && old(g)@.kept(x) ==> g@.live(x)
                        && g@.ops[x] == old(g)@.ops[x],
                rewrites == 0 ==> g@ == old(g)@,
                rewrites > 0 ==> gather_applicable(old(g)@),
                rewrites + count_op(g@.ops, Op::SumReduce) <= count_op(old(g)@.ops, Op::SumReduce),
            ensures
                g@.wf(),
                !gather_applicable(g@),
                g@.n() >= old(g)@.n(),
                forall|x: int| 0 <= x < old(g)@.keep.len() ==> g@.keep[x] == old(g)@.keep[x],
                forall|x: int|
                    0 <= x < old(g)@.n() && old(g)@.live(x) && old(g)@.kept(x) ==> g@.live(x)
                        && g@.ops[x] == old(g)@.ops[x],
                rewrites == 0 ==> g@ == old(g)@,
                rewrites > 0 ==> gather_applicable(old(g)@),
            decreases count_op(g@.ops, Op::SumReduce),
        {
            let ghost pre = g@;
            let found = find_gather_match(g);
            match found {
                None => {
                    break ;
                },
                Some(mm) => {
                    proof {
                        assert(gather_applicable_at(pre, mm.root));
                        assert(gather_applicable(pre));
                        assert(count_op(pre.ops, Op::SumReduce) >= 1) by {
                            lemma_count_op_at_least_one(pre.ops, mm.root as int, Op::SumReduce);
                        }
                    }
                    apply_gather(g, &mm);
                    proof {
                        assert forall|x: int|
                            0 <= x < old(g)@.n() && old(g)@.live(x) && old(g)@.kept(x) implies
                        g@.live(x) && g@.ops[x] == old(g)@.ops[x] by {
                            assert(pre.live(x) && pre.ops[x] == old(g)@.ops[x]);
                            assert(pre.kept(x));
                            assert(x != mm.root as int && x != mm.mul as int && x != mm.eqn as int
                                && x != mm.arange as int);
                            assert(g@.ops[x] == pre.ops[x]);
                        }
                    }
                    rewrites = rewrites + 1;
                },
            }
        }
        rewrites
    }
}

} // verus!
