//! The equality fusion pass: `sub(1, add(lt(a, b), lt(b, a)))` becomes one
//! fused equality operator. The subtraction at the root is itself the fused
//! operator the subtraction pass produces, so this pass runs after it.

use vstd::prelude::*;

use crate::fusion::{
    count_op, edge_from_to, find_input_edge, has_edge_from_to, input_ok, input_ok_check,
    lemma_count_op_at_least_one, lemma_count_op_le_len, lemma_count_op_pointwise_le,
    lemma_count_op_push, lemma_count_op_update_none,
};
use crate::graph::{EdgeView, Graph, GraphView, Op};

verus! {

/// The two crosswise comparisons: `e5` feeds `lt1`'s slot 0 with `a`, `e6`
/// feeds `lt1`'s slot 1 with `b`, and `lt2` compares the same operands the
/// other way round.
pub open spec fn eq_ab_ok(
    g: GraphView,
    r: usize,
    lt1: usize,
    lt2: usize,
    e5: int,
    e6: int,
) -> bool {
    &&& 0 <= e5 < g.edges.len()
    &&& g.edges[e5].dst == lt1
    &&& g.edges[e5].input_slot == 0
    &&& g.edges[e5].src != r
    &&& 0 <= e6 < g.edges.len()
    &&& g.edges[e6].dst == lt1
    &&& g.edges[e6].input_slot == 1
    &&& g.edges[e6].src != r
    &&& edge_from_to(g, g.edges[e6].src, lt2, 0)
    &&& edge_from_to(g, g.edges[e5].src, lt2, 1)
}

/// A structural match of the equality idiom rooted at `r`, with its guard.
/// `e1` is `const(1) -> r` (slot 0), `e2` is `ne -> r` (slot 1) for the
/// inner addition, `e3`/`e4` are the two comparisons feeding `ne`, and
/// `e5`/`e6` bind the compared operands through `lt1`.
pub open spec fn eq_binding_ok(
    g: GraphView,
    r: usize,
    e1: int,
    e2: int,
    e3: int,
    e4: int,
    e5: int,
    e6: int,
) -> bool {
    &&& g.live(r as int)
    &&& g.op_of(r as int) == Op::FusedSub
    &&& !g.kept(r as int)
    &&& input_ok(g, e1, r, 0, Op::Constant(1i64), r)
    &&& input_ok(g, e2, r, 1, Op::Add, r)
    &&& input_ok(g, e3, g.edges[e2].src, 0, Op::LessThan, g.edges[e2].src)
    &&& input_ok(g, e4, g.edges[e2].src, 1, Op::LessThan, g.edges[e2].src)
    &&& g.edges[e4].src != g.edges[e3].src
    &&& eq_ab_ok(g, r, g.edges[e3].src, g.edges[e4].src, e5, e6)
}

/// Whether the equality idiom has an applicable match rooted at `r`.
pub open spec fn eq_applicable_at(g: GraphView, r: usize) -> bool {
    exists|e1: int, e2: int, e3: int, e4: int, e5: int, e6: int|
        #[trigger] eq_binding_ok(g, r, e1, e2, e3, e4, e5, e6)
}

/// Whether the equality idiom has any applicable match.
pub open spec fn eq_applicable(g: GraphView) -> bool {
    exists|r: usize| #[trigger] eq_applicable_at(g, r)
}

/// One applicable match of the equality idiom.
pub struct EqMatch {
    pub root: usize,
    pub one: usize,
    pub ne: usize,
    pub lt1: usize,
    pub lt2: usize,
    pub e_one: usize,
    pub e_ne: usize,
    pub e_lt1: usize,
    pub e_lt2: usize,
    pub e_a: usize,
    pub e_b: usize,
}

/// First `b` edge: into `lt1` at slot 1, from a node other than `r` that
/// also feeds `lt2`'s slot 0.
fn find_b_edge(g: &Graph, r: usize, lt1: usize, lt2: usize) -> (res: Option<usize>)
    ensures
        match res {
            Some(e6) => 0 <= e6 < g@.edges.len() && g@.edges[e6 as int].dst == lt1 && g@.edges[
                e6 as int
            ].input_slot == 1 && g@.edges[e6 as int].src != r && edge_from_to(
                g@,
                g@.edges[e6 as int].src,
                lt2,
                0,
            ),
            None => forall|e6: int|
                0 <= e6 < g@.edges.len() ==> !((#[trigger] g@.edges[e6]).dst == lt1
                    && g@.edges[e6].input_slot == 1 && g@.edges[e6].src != r && edge_from_to(
                    g@,
                    g@.edges[e6].src,
                    lt2,
                    0,
                )),
        },
{
    let ne = g.edges.len();
    let mut k: usize = 0;
    while k < ne
        invariant
            k <= ne,
            ne == g@.edges.len(),
            forall|j: int|
                0 <= j < k ==> !((#[trigger] g@.edges[j]).dst == lt1 && g@.edges[j].input_slot == 1
                    && g@.edges[j].src != r && edge_from_to(g@, g@.edges[j].src, lt2, 0)),
        decreases ne - k,
    {
        let e_dst = g.edges[k].dst;
        let e_slot = g.edges[k].input_slot;
        let e_src = g.edges[k].src;
        if e_dst == lt1 && e_slot == 1 && e_src != r {
            if has_edge_from_to(g, e_src, lt2, 0) {
                proof {
                    assert((#[trigger] g@.edges[k as int]).dst == lt1);
                }
                return Some(k);
            }
        }
        k = k + 1;
    }
    None
}

/// The operand edges `e5`, `e6` for a fixed pair of comparisons.
fn find_ab(g: &Graph, r: usize, lt1: usize, lt2: usize) -> (res: Option<(usize, usize)>)
    ensures
        match res {
            Some(p) => eq_ab_ok(g@, r, lt1, lt2, p.0 as int, p.1 as int),
            None => forall|e5: int, e6: int| !(#[trigger] eq_ab_ok(g@, r, lt1, lt2, e5, e6)),
        },
{
    let ob = find_b_edge(g, r, lt1, lt2);
    match ob {
        None => {
            proof {
                assert forall|e5: int, e6: int| !(#[trigger] eq_ab_ok(g@, r, lt1, lt2, e5, e6))
                    by {}
            }
            None
        },
        Some(e6) => {
            let ne = g.edges.len();
            let mut k: usize = 0;
            while k < ne
                invariant
                    k <= ne,
                    ne == g@.edges.len(),
                    0 <= e6 < g@.edges.len(),
                    g@.edges[e6 as int].dst == lt1,
                    g@.edges[e6 as int].input_slot == 1,
                    g@.edges[e6 as int].src != r,
                    edge_from_to(g@, g@.edges[e6 as int].src, lt2, 0),
                    forall|j: int|
                        0 <= j < k ==> !((#[trigger] g@.edges[j]).dst == lt1
                            && g@.edges[j].input_slot == 0 && g@.edges[j].src != r && edge_from_to(
                            g@,
                            g@.edges[j].src,
                            lt2,
                            1,
                        )),
                decreases ne - k,
            {
                let e_dst = g.edges[k].dst;
                let e_slot = g.edges[k].input_slot;
                let e_src = g.edges[k].src;
                if e_dst == lt1 && e_slot == 0 && e_src != r {
                    if has_edge_from_to(g, e_src, lt2, 1) {
                        proof {
                            assert(eq_ab_ok(g@, r, lt1, lt2, k as int, e6 as int));
                        }
                        return Some((k, e6));
                    }
                }
                k = k + 1;
            }
            proof {
                assert forall|e5: int, e6x: int| !(#[trigger] eq_ab_ok(g@, r, lt1, lt2, e5, e6x))
                    by {}
            }
            None
        },
    }
}

/// The second comparison `e4` and the operand edges, for a fixed `lt1`.
fn find_lt2_and_ab(g: &Graph, r: usize, nenode: usize, lt1: usize) -> (res: Option<
    (usize, usize, usize),
>)
    requires
        g@.wf(),
    ensures
        match res {
            Some(t) => input_ok(g@, t.0 as int, nenode, 1, Op::LessThan, nenode) && g@.edges[
                t.0 as int
            ].src != lt1 && eq_ab_ok(g@, r, lt1, g@.edges[t.0 as int].src, t.1 as int, t.2 as int),
            None => forall|e4: int, e5: int, e6: int|
                #![trigger input_ok(g@, e4, nenode, 1, Op::LessThan, nenode), eq_ab_ok(g@, r, lt1, g@.edges[e4].src, e5, e6)]
                !(input_ok(g@, e4, nenode, 1, Op::LessThan, nenode) && g@.edges[e4].src
                    != lt1 && eq_ab_ok(g@, r, lt1, g@.edges[e4].src, e5, e6)),
        },
{
    let ne = g.edges.len();
    let mut k: usize = 0;
    while k < ne
        invariant
            k <= ne,
            ne == g@.edges.len(),
            g@.wf(),
            forall|j: int, e5: int, e6: int|
                #![trigger input_ok(g@, j, nenode, 1, Op::LessThan, nenode), eq_ab_ok(g@, r, lt1, g@.edges[j].src, e5, e6)]
                0 <= j < k ==> !(input_ok(g@, j, nenode, 1, Op::LessThan, nenode)
                    && g@.edges[j].src != lt1 && eq_ab_ok(g@, r, lt1, g@.edges[j].src, e5, e6)),
        decreases ne - k,
    {
        if input_ok_check(g, k, nenode, 1, Op::LessThan, nenode) {
            let lt2 = g.edges[k].src;
            if lt2 != lt1 {
                match find_ab(g, r, lt1, lt2) {
                    Some(p) => {
                        return Some((k, p.0, p.1));
                    },
                    None => {},
                }
            }
        }
        k = k + 1;
    }
    None
}

/// The first comparison `e3` and everything below it, for a fixed `ne`.
fn find_lt_pair(g: &Graph, r: usize, nenode: usize) -> (res: Option<
    (usize, usize, usize, usize),
>)
    requires
        g@.wf(),
    ensures
        match res {
            Some(t) => input_ok(g@, t.0 as int, nenode, 0, Op::LessThan, nenode) && input_ok(
                g@,
                t.1 as int,
                nenode,
                1,
                Op::LessThan,
                nenode,
            ) && g@.edges[t.1 as int].src != g@.edges[t.0 as int].src && eq_ab_ok(
                g@,
                r,
                g@.edges[t.0 as int].src,
                g@.edges[t.1 as int].src,
                t.2 as int,
                t.3 as int,
            ),
            None => forall|e3: int, e4: int, e5: int, e6: int|
                #![trigger input_ok(g@, e3, nenode, 0, Op::LessThan, nenode), input_ok(g@, e4, nenode, 1, Op::LessThan, nenode), eq_ab_ok(g@, r, g@.edges[e3].src, g@.edges[e4].src, e5, e6)]
                !(input_ok(g@, e3, nenode, 0, Op::LessThan, nenode) && input_ok(
                    g@,
                    e4,
                    nenode,
                    1,
                    Op::LessThan,
                    nenode,
                ) && g@.edges[e4].src != g@.edges[e3].src && eq_ab_ok(
                    g@,
                    r,
                    g@.edges[e3].src,
                    g@.edges[e4].src,
                    e5,
                    e6,
                )),
        },
{
    let ne = g.edges.len();
    let mut k: usize = 0;
    while k < ne
        invariant
            k <= ne,
            ne == g@.edges.len(),
            g@.wf(),
            forall|j: int, e4: int, e5: int, e6: int|
                #![trigger input_ok(g@, j, nenode, 0, Op::LessThan, nenode), input_ok(g@, e4, nenode, 1, Op::LessThan, nenode), eq_ab_ok(g@, r, g@.edges[j].src, g@.edges[e4].src, e5, e6)]
                0 <= j < k ==> !(input_ok(g@, j, nenode, 0, Op::LessThan, nenode)
                    && input_ok(g@, e4, nenode, 1, Op::LessThan, nenode) && g@.edges[e4].src
                    != g@.edges[j].src && eq_ab_ok(
                    g@,
                    r,
                    g@.edges[j].src,
                    g@.edges[e4].src,
                    e5,
                    e6,
                )),
        decreases ne - k,
    {
        if input_ok_check(g, k, nenode, 0, Op::LessThan, nenode) {
            let lt1 = g.edges[k].src;
            match find_lt2_and_ab(g, r, nenode, lt1) {
                Some(t) => {
                    return Some((k, t.0, t.1, t.2));
                },
                None => {},
            }
        }
        k = k + 1;
    }
    None
}

/// Search for an applicable equality match rooted at `r`.
fn check_eq_at(g: &Graph, r: usize) -> (res: Option<EqMatch>)
    requires
        g@.wf(),
        r < g@.n(),
    ensures
        match res {
            Some(mm) => mm.root == r && eq_binding_ok(
                g@,
                r,
                mm.e_one as int,
                mm.e_ne as int,
                mm.e_lt1 as int,
                mm.e_lt2 as int,
                mm.e_a as int,
                mm.e_b as int,
            ) && mm.one == g@.edges[mm.e_one as int].src && mm.ne == g@.edges[mm.e_ne as int].src
                && mm.lt1 == g@.edges[mm.e_lt1 as int].src && mm.lt2 == g@.edges[
                mm.e_lt2 as int
            ].src,
            None => !eq_applicable_at(g@, r),
        },
{
    let is_root = match g.op(r) {
        Some(Op::FusedSub) => true,
        _ => false,
    };
    if !is_root || g.is_kept(r) {
        proof {
            assert forall|e1: int, e2: int, e3: int, e4: int, e5: int, e6: int| !(
            #[trigger] eq_binding_ok(g@, r, e1, e2, e3, e4, e5, e6)) by {}
        }
        return None;
    }
    // the constant-one input does not depend on the rest of the binding
    let ne = g.edges.len();
    let e1 = match find_input_edge(g, r, 0, Op::Constant(1i64), r) {
        Some(e1) => e1,
        None => {
            proof {
                assert forall|e1x: int, e2: int, e3: int, e4: int, e5: int, e6: int| !(
                #[trigger] eq_binding_ok(g@, r, e1x, e2, e3, e4, e5, e6)) by {}
            }
            return None;
        },
    };
    // the inner addition and everything beneath it
    let mut k2: usize = 0;
    while k2 < ne
        invariant
            k2 <= ne,
            ne == g@.edges.len(),
            g@.wf(),
            g@.live(r as int),
            g@.op_of(r as int) == Op::FusedSub,
            !g@.kept(r as int),
            0 <= e1 < g@.edges.len(),
            input_ok(g@, e1 as int, r, 0, Op::Constant(1i64), r),
            forall|j: int, e3: int, e4: int, e5: int, e6: int|
                #![trigger input_ok(g@, j, r, 1, Op::Add, r), input_ok(g@, e3, g@.edges[j].src, 0, Op::LessThan, g@.edges[j].src), input_ok(g@, e4, g@.edges[j].src, 1, Op::LessThan, g@.edges[j].src), eq_ab_ok(g@, r, g@.edges[e3].src, g@.edges[e4].src, e5, e6)]
                0 <= j < k2 ==> !(input_ok(g@, j, r, 1, Op::Add, r) && input_ok(
                    g@,
                    e3,
                    g@.edges[j].src,
                    0,
                    Op::LessThan,
                    g@.edges[j].src,
                ) && input_ok(g@, e4, g@.edges[j].src, 1, Op::LessThan, g@.edges[j].src)
                    && g@.edges[e4].src != g@.edges[e3].src && eq_ab_ok(
                    g@,
                    r,
                    g@.edges[e3].src,
                    g@.edges[e4].src,
                    e5,
                    e6,
                )),
        decreases ne - k2,
    {
        if input_ok_check(g, k2, r, 1, Op::Add, r) {
            let nenode = g.edges[k2].src;
            match find_lt_pair(g, r, nenode) {
                Some(t) => {
                    let lt1 = g.edges[t.0].src;
                    let lt2 = g.edges[t.1].src;
                    let one = g.edges[e1].src;
                    proof {
                        assert(eq_binding_ok(
                            g@,
                            r,
                            e1 as int,
                            k2 as int,
                            t.0 as int,
                            t.1 as int,
                            t.2 as int,
                            t.3 as int,
                        ));
                    }
                    return Some(EqMatch {
                        root: r,
                        one,
                        ne: nenode,
                        lt1,
                        lt2,
                        e_one: e1,
                        e_ne: k2,
                        e_lt1: t.0,
                        e_lt2: t.1,
                        e_a: t.2,
                        e_b: t.3,
                    });
                },
                None => {},
            }
        }
        k2 = k2 + 1;
    }
    proof {
        assert forall|e1x: int, e2: int, e3: int, e4: int, e5: int, e6: int| !(
        #[trigger] eq_binding_ok(g@, r, e1x, e2, e3, e4, e5, e6)) by {}
        assert(!eq_applicable_at(g@, r));
    }
    None
}

/// Search the whole graph for the first applicable equality match.
fn find_eq_match(g: &Graph) -> (res: Option<EqMatch>)
    requires
        g@.wf(),
    ensures
        match res {
            Some(mm) => mm.root < g@.n() && eq_binding_ok(
                g@,
                mm.root,
                mm.e_one as int,
                mm.e_ne as int,
                mm.e_lt1 as int,
                mm.e_lt2 as int,
                mm.e_a as int,
                mm.e_b as int,
            ) && mm.one == g@.edges[mm.e_one as int].src && mm.ne == g@.edges[mm.e_ne as int].src
                && mm.lt1 == g@.edges[mm.e_lt1 as int].src && mm.lt2 == g@.edges[
                mm.e_lt2 as int
            ].src,
            None => !eq_applicable(g@),
        },
{
    let n = g.ops.len();
    let mut r: usize = 0;
    while r < n
        invariant
            r <= n,
            n == g@.n(),
            g@.wf(),
            forall|x: usize| x < r ==> !(#[trigger] eq_applicable_at(g@, x)),
        decreases n - r,
    {
        match check_eq_at(g, r) {
            Some(mm) => {
                return Some(mm);
            },
            None => {},
        }
        r = r + 1;
    }
    proof {
        assert forall|x: usize| !(#[trigger] eq_applicable_at(g@, x)) by {
            if x < n {
            } else {
                assert forall|e1: int, e2: int, e3: int, e4: int, e5: int, e6: int| !(
                #[trigger] eq_binding_ok(g@, x, e1, e2, e3, e4, e5, e6)) by {}
            }
        }
    }
    None
}

/// Apply one equality rewrite: synthesize the fused operator with the two
/// compared operands' views, rewire the edges leaving the terminal, remove
/// the terminal, and safe-delete the matched intermediates.
fn apply_eq(g: &mut Graph, mm: &EqMatch)
    requires
        old(g)@.wf(),
        eq_binding_ok(
            old(g)@,
            mm.root,
            mm.e_one as int,
            mm.e_ne as int,
            mm.e_lt1 as int,
            mm.e_lt2 as int,
            mm.e_a as int,
            mm.e_b as int,
        ),
        mm.one == old(g)@.edges[mm.e_one as int].src,
        mm.ne == old(g)@.edges[mm.e_ne as int].src,
        mm.lt1 == old(g)@.edges[mm.e_lt1 as int].src,
        mm.lt2 == old(g)@.edges[mm.e_lt2 as int].src,
    ensures
        final(g)@.wf(),
        final(g)@.n() == old(g)@.n() + 1,
        final(g)@.keep == old(g)@.keep.push(false),
        final(g)@.ops[mm.root as int] is None,
        final(g)@.ops[old(g)@.n() as int] == Some(Op::FusedEqual),
        forall|x: int|
            0 <= x < old(g)@.n() && x != mm.root as int && x != mm.one as int && x != mm.ne as int
                && x != mm.lt1 as int && x != mm.lt2 as int ==> final(g)@.ops[x] == old(g)@.ops[x],
        count_op(final(g)@.ops, Op::FusedSub) < count_op(old(g)@.ops, Op::FusedSub),
        final(g)@.edges.contains(
            EdgeView {
                src: old(g)@.edges[mm.e_a as int].src,
                dst: old(g)@.n() as usize,
                input_slot: 0,
                output_slot: old(g)@.edges[mm.e_a as int].output_slot,
                view: old(g)@.edges[mm.e_a as int].view,
            },
        ),
        final(g)@.edges.contains(
            EdgeView {
                src: old(g)@.edges[mm.e_b as int].src,
                dst: old(g)@.n() as usize,
                input_slot: 1,
                output_slot: old(g)@.edges[mm.e_b as int].output_slot,
                view: old(g)@.edges[mm.e_b as int].view,
            },
        ),
{
    let ghost g0 = old(g)@;
    proof {
        assert(g0.op_of(mm.root as int) == Op::FusedSub);
        assert(g0.op_of(mm.one as int) == Op::Constant(1i64));
        assert(g0.op_of(mm.ne as int) == Op::Add);
        assert(g0.op_of(mm.lt1 as int) == Op::LessThan);
        assert(g0.op_of(mm.lt2 as int) == Op::LessThan);
        assert(mm.root != mm.one && mm.root != mm.ne && mm.root != mm.lt1 && mm.root != mm.lt2);
        assert(mm.one != mm.ne && mm.one != mm.lt1 && mm.one != mm.lt2);
        assert(mm.ne != mm.lt1 && mm.ne != mm.lt2);
        assert(mm.lt1 != mm.lt2);
        assert(g0.live(mm.one as int) && g0.live(mm.ne as int) && g0.live(mm.lt1 as int)
            && g0.live(mm.lt2 as int));
    }
    let a_src = g.edges[mm.e_a].src;
    let a_out = g.edges[mm.e_a].output_slot;
    let a_view = g.edges[mm.e_a].view.clone();
    let b_src = g.edges[mm.e_b].src;
    let b_out = g.edges[mm.e_b].output_slot;
    let b_view = g.edges[mm.e_b].view.clone();
    proof {
        assert(g0.live(a_src as int) && g0.live(b_src as int));
        assert(a_view@.wf() && b_view@.wf());
        assert(a_src != mm.root && b_src != mm.root);
    }
    let fused = g.add_node(Op::FusedEqual);
    proof {
        assert(g@.live(a_src as int) && g@.live(b_src as int) && g@.live(fused as int));
    }
    g.add_edge(a_src, fused, 0, a_out, a_view);
    g.add_edge(b_src, fused, 1, b_out, b_view);
    let ghost g3 = g@;
    let ghost ea = EdgeView {
        src: g0.edges[mm.e_a as int].src,
        dst: fused,
        input_slot: 0,
        output_slot: g0.edges[mm.e_a as int].output_slot,
        view: g0.edges[mm.e_a as int].view,
    };
    let ghost eb = EdgeView {
        src: g0.edges[mm.e_b as int].src,
        dst: fused,
        input_slot: 1,
        output_slot: g0.edges[mm.e_b as int].output_slot,
        view: g0.edges[mm.e_b as int].view,
    };
    proof {
        assert(g3.edges == g0.edges.push(ea).push(eb));
        assert(g3.live(fused as int));
    }
    g.move_outgoing_edge(mm.root, fused);
    let ghost g4 = g@;
    proof {
        assert(g4.edges[g0.edges.len() as int] == ea) by {
            assert(g3.edges[g0.edges.len() as int] == ea);
            assert(ea.src != mm.root);
        }
        assert(g4.edges[g0.edges.len() as int + 1] == eb) by {
            assert(g3.edges[g0.edges.len() as int + 1] == eb);
            assert(eb.src != mm.root);
        }
    }
    g.remove_node(mm.root);
    let ghost g5 = g@;
    let mut candidates: Vec<usize> = Vec::new();
    candidates.push(mm.one);
    candidates.push(mm.ne);
    candidates.push(mm.lt1);
    candidates.push(mm.lt2);
    proof {
        assert(forall|j: int|
            0 <= j < candidates@.len() ==> (#[trigger] candidates@[j]) < g5.n());
        assert forall|x: usize| candidates@.contains(x) implies (x == mm.one || x == mm.ne || x
            == mm.lt1 || x == mm.lt2) by {
            let i = choose|i: int| 0 <= i < candidates@.len() && candidates@[i] == x;
        }
    }
    g.try_delete(&candidates);
    proof {
        let g6 = g@;
        assert(g5.ops == g0.ops.push(Some(Op::FusedEqual)).update(mm.root as int, None));
        assert(fused as int == g0.n());
        assert forall|x: int|
            0 <= x < g0.n() && x != mm.root as int && x != mm.one as int && x != mm.ne as int && x
                != mm.lt1 as int && x != mm.lt2 as int implies g6.ops[x] == g0.ops[x] by {
            assert(!candidates@.contains(x as usize));
            assert(g6.ops[x] == g5.ops[x]);
        }
        assert(g6.ops[mm.root as int] is None) by {
            assert(!candidates@.contains(mm.root));
            assert(g6.ops[mm.root as int] == g5.ops[mm.root as int]);
        }
        assert(g6.ops[fused as int] == Some(Op::FusedEqual)) by {
            assert(!candidates@.contains(fused));
            assert(g6.ops[fused as int] == g5.ops[fused as int]);
        }
        assert(count_op(g6.ops, Op::FusedSub) < count_op(g0.ops, Op::FusedSub)) by {
            lemma_count_op_push(g0.ops, Some(Op::FusedEqual), Op::FusedSub);
            lemma_count_op_update_none(
                g0.ops.push(Some(Op::FusedEqual)),
                mm.root as int,
                Op::FusedSub,
            );
            assert(g0.ops.push(Some(Op::FusedEqual))[mm.root as int] == Some(Op::FusedSub));
            assert(count_op(g5.ops, Op::FusedSub) == count_op(g0.ops, Op::FusedSub) - 1);
            assert(forall|x: int|
                0 <= x < g6.ops.len() ==> (#[trigger] g6.ops[x]) == g5.ops[x]
                    || g6.ops[x] is None);
            lemma_count_op_pointwise_le(g5.ops, g6.ops, Op::FusedSub);
        }
        assert(g6.edges.contains(ea)) by {
            assert(g4.edges[g0.edges.len() as int] == ea);
            assert(ea.src != mm.root && ea.dst != mm.root);
            crate::graph::lemma_edges_without_mem(g4.edges, mm.root);
            assert(g5.edges.contains(ea));
            let w = choose|w: int| 0 <= w < g5.edges.len() && g5.edges[w] == ea;
            assert(!candidates@.contains(g5.edges[w].dst));
            assert(g6.live(ea.src as int));
            assert(g6.ops[ea.dst as int] == g5.ops[ea.dst as int]);
            crate::graph::lemma_edges_alive_mem(g5.edges, g6.ops);
            assert(g6.edges.contains(ea));
        }
        assert(g6.edges.contains(eb)) by {
            assert(g4.edges[g0.edges.len() as int + 1] == eb);
            assert(eb.src != mm.root && eb.dst != mm.root);
            crate::graph::lemma_edges_without_mem(g4.edges, mm.root);
            assert(g5.edges.contains(eb));
            let w = choose|w: int| 0 <= w < g5.edges.len() && g5.edges[w] == eb;
            assert(!candidates@.contains(g5.edges[w].dst));
            assert(g6.live(eb.src as int));
            assert(g6.ops[eb.dst as int] == g5.ops[eb.dst as int]);
            crate::graph::lemma_edges_alive_mem(g5.edges, g6.ops);
            assert(g6.edges.contains(eb));
        }
    }
}

/// The equality fusion pass: rewrite every applicable occurrence of
/// `sub(1, add(lt(a, b), lt(b, a)))` into a single fused equality operator.
#[derive(Clone, Copy, Default, Debug)]
pub struct EqualityCompiler;

impl EqualityCompiler {
    /// Run the pass to a fixed point. On return no applicable match of the
    /// equality idiom remains; a graph that had none to begin with comes
    /// back unchanged with zero rewrites, so re-running the pass on its own
    /// output performs zero further rewrites. Nodes marked must-survive are
    /// never deleted and keep their operator.
    pub fn compile(&self, g: &mut Graph) -> (rewrites: usize)
        requires
            old(g)@.wf(),
        ensures
            final(g)@.wf(),
            !eq_applicable(final(g)@),
            !eq_applicable(old(g)@) ==> final(g)@ == old(g)@ && rewrites == 0,
            final(g)@.n() >= old(g)@.n(),
            forall|x: int| 0 <= x < old(g)@.keep.len() ==> final(g)@.keep[x] == old(g)@.keep[x],
            forall|x: int|
                0 <= x < old(g)@.n() && old(g)@.live(x) && old(g)@.kept(x) ==> final(g)@.live(x)
                    && final(g)@.ops[x] == old(g)@.ops[x],
    {
        let mut rewrites: usize = 0;
        let bound = g.ops.len();
        proof {
            lemma_count_op_le_len(old(g)@.ops, Op::FusedSub);
        }
        loop
            invariant
                g@.wf(),
                old(g)@.wf(),
                g@.n() >= old(g)@.n(),
                g@.keep.len() >= old(g)@.keep.len(),
                count_op(old(g)@.ops, Op::FusedSub) <= bound,
                forall|x: int| 0 <= x < old(g)@.keep.len() ==> g@.keep[x] == old(g)@.keep[x],
                forall|x: int|
                    0 <= x < old(g)@.n() && old(g)@.live(x) && old(g)@.kept(x) ==> g@.live(x)
                        && g@.ops[x] == old(g)@.ops[x],
                rewrites == 0 ==> g@ == old(g)@,
                rewrites > 0 ==> eq_applicable(old(g)@),
                rewrites + count_op(g@.ops, Op::FusedSub) <= count_op(old(g)@.ops, Op::FusedSub),
            ensures
                g@.wf(),
                !eq_applicable(g@),
                g@.n() >= old(g)@.n(),
                forall|x: int| 0 <= x < old(g)@.keep.len() ==> g@.keep[x] == old(g)@.keep[x],
                forall|x: int|
                    0 <= x < old(g)@.n() && old(g)@.live(x) && old(g)@.kept(x) ==> g@.live(x)
                        && g@.ops[x] == old(g)@.ops[x],
                rewrites == 0 ==> g@ == old(g)@,
                rewrites > 0 ==> eq_applicable(old(g)@),
            decreases count_op(g@.ops, Op::FusedSub),
        {
            let ghost pre = g@;
            let found = find_eq_match(g);
            match found {
                None => {
                    break ;
                },
                Some(mm) => {
                    proof {
                        assert(eq_applicable_at(pre, mm.root));
                        assert(eq_applicable(pre));
                        assert(count_op(pre.ops, Op::FusedSub) >= 1) by {
                            lemma_count_op_at_least_one(pre.ops, mm.root as int, Op::FusedSub);
                        }
                    }
                    apply_eq(g, &mm);
                    proof {
                        assert forall|x: int|
                            0 <= x < old(g)@.n() && old(g)@.live(x) && old(g)@.kept(x) implies
                        g@.live(x) && g@.ops[x] == old(g)@.ops[x] by {
                            assert(pre.live(x) && pre.ops[x] == old(g)@.ops[x]);
                            assert(pre.kept(x));
                            assert(x != mm.root as int && x != mm.one as int && x != mm.ne as int
                                && x != mm.lt1 as int && x != mm.lt2 as int);
                            assert(g@.ops[x] == pre.ops[x]);
                        }
                    }
                    rewrites = rewrites + 1;
                },
            }
        }
        rewrites
    }
}

} // verus!
