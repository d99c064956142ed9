//! Fusion compiler passes.
//!
//! Each pass owns one template idiom and runs to a fixed point: request the
//! next structural match against the graph's current state, skip it when the
//! do-not-delete guard trips or a view precondition fails, otherwise
//! synthesize the fused operator, rewire the edges that left the idiom's
//! terminal node, remove the terminal, and safe-delete the now-dead
//! intermediates. A match is only ever applied to the state it was computed
//! on; every rewrite restarts the search.

pub mod equal;
pub mod gather;

use vstd::prelude::*;

use crate::graph::{EdgeView, Graph, GraphView, Op};

verus! {

/// Some edge runs from `srcn` into `dstn` at input `slot`.
pub open spec fn edge_from_to(g: GraphView, srcn: usize, dstn: usize, slot: usize) -> bool {
    exists|k: int|
        0 <= k < g.edges.len() && (#[trigger] g.edges[k]).src == srcn && g.edges[k].dst == dstn
            && g.edges[k].input_slot == slot
}

/// Edge `e` feeds `dstn` at `slot` from an unguarded node carrying `want`
/// that is consumed only by `dstn`; its source is not `not_src`.
pub open spec fn input_ok(
    g: GraphView,
    e: int,
    dstn: usize,
    slot: usize,
    want: Op,
    not_src: usize,
) -> bool {
    &&& 0 <= e < g.edges.len()
    &&& g.edges[e].dst == dstn
    &&& g.edges[e].input_slot == slot
    &&& g.edges[e].src != not_src
    &&& g.op_of(g.edges[e].src as int) == want
    &&& !g.kept(g.edges[e].src as int)
    &&& forall|k: int|
        0 <= k < g.edges.len() && (#[trigger] g.edges[k]).src == g.edges[e].src ==> g.edges[k].dst
            == dstn
}

/// Whether some edge runs from `srcn` into `dstn` at `slot`.
pub(crate) fn has_edge_from_to(g: &Graph, srcn: usize, dstn: usize, slot: usize) -> (r: bool)
    ensures
        r == edge_from_to(g@, srcn, dstn, slot),
{
    let ne = g.edges.len();
    let mut k: usize = 0;
    while k < ne
        invariant
            k <= ne,
            ne == g@.edges.len(),
            forall|j: int|
                0 <= j < k ==> !((#[trigger] g@.edges[j]).src == srcn && g@.edges[j].dst == dstn
                    && g@.edges[j].input_slot == slot),
        decreases ne - k,
    {
        let e = &g.edges[k];
        if e.src == srcn && e.dst == dstn && e.input_slot == slot {
            proof {
                assert((#[trigger] g@.edges[k as int]).src == srcn && g@.edges[k as int].dst == dstn
                    && g@.edges[k as int].input_slot == slot);
            }
            return true;
        }
        k = k + 1;
    }
    false
}

/// Whether edge `e` is an `input_ok` edge for `dstn`, `slot`, `want`.
pub(crate) fn input_ok_check(
    g: &Graph,
    e: usize,
    dstn: usize,
    slot: usize,
    want: Op,
    not_src: usize,
) -> (r: bool)
    requires
        g@.wf(),
        e < g@.edges.len(),
    ensures
        r == input_ok(g@, e as int, dstn, slot, want, not_src),
{
    let ed_dst = g.edges[e].dst;
    let ed_slot = g.edges[e].input_slot;
    let ed_src = g.edges[e].src;
    if ed_dst != dstn || ed_slot != slot || ed_src == not_src {
        return false;
    }
    proof {
        assert(g@.live(g@.edges[e as int].src as int));
    }
    let op_matches = match g.op(ed_src) {
        Some(o) => o == want,
        None => false,
    };
    if !op_matches {
        return false;
    }
    if g.is_kept(ed_src) {
        return false;
    }
    outgoing_only_to(g, ed_src, dstn)
}

/// First `input_ok` edge for `dstn`, `slot`, `want`.
pub(crate) fn find_input_edge(
    g: &Graph,
    dstn: usize,
    slot: usize,
    want: Op,
    not_src: usize,
) -> (res: Option<usize>)
    requires
        g@.wf(),
    ensures
        match res {
            Some(k) => input_ok(g@, k as int, dstn, slot, want, not_src),
            None => forall|j: int| !(#[trigger] input_ok(g@, j, dstn, slot, want, not_src)),
        },
{
    let ne = g.edges.len();
    let mut k: usize = 0;
    while k < ne
        invariant
            k <= ne,
            ne == g@.edges.len(),
            g@.wf(),
            forall|j: int| 0 <= j < k ==> !(#[trigger] input_ok(g@, j, dstn, slot, want, not_src)),
        decreases ne - k,
    {
        if input_ok_check(g, k, dstn, slot, want, not_src) {
            return Some(k);
        }
        k = k + 1;
    }
    None
}

/// Number of live nodes carrying operator `t`.
pub open spec fn count_op(s: Seq<Option<Op>>, t: Op) -> nat
    decreases s.len(),
{
    if s.len() == 0 {
        0
    } else {
        count_op(s.drop_last(), t) + (if s.last() == Some(t) {
            1nat
        } else {
            0nat
        })
    }
}

/// The live-operator count never exceeds the table's length.
pub proof fn lemma_count_op_le_len(s: Seq<Option<Op>>, t: Op)
    ensures
        count_op(s, t) <= s.len(),
    decreases s.len(),
{
    if s.len() > 0 {
        lemma_count_op_le_len(s.drop_last(), t);
    }
}

/// Appending a node with a different operator keeps the count.
pub proof fn lemma_count_op_push(s: Seq<Option<Op>>, o: Option<Op>, t: Op)
    ensures
        count_op(s.push(o), t) == count_op(s, t) + (if o == Some(t) {
            1nat
        } else {
            0nat
        }),
{
    assert(s.push(o).drop_last() =~= s);
    assert(s.push(o).last() == o);
}

/// Deleting a node carrying `t` lowers its count by one.
pub proof fn lemma_count_op_update_none(s: Seq<Option<Op>>, i: int, t: Op)
    requires
        0 <= i < s.len(),
    ensures
        count_op(s.update(i, None), t) == count_op(s, t) - (if s[i] == Some(t) {
            1nat
        } else {
            0nat
        }),
    decreases s.len(),
{
    if i == s.len() - 1 {
        assert(s.update(i, None).drop_last() =~= s.drop_last());
        assert(s.update(i, None).last() == None::<Op>);
    } else {
        assert(s.update(i, None).drop_last() =~= s.drop_last().update(i, None));
        assert(s.update(i, None).last() == s.last());
        lemma_count_op_update_none(s.drop_last(), i, t);
    }
}

/// Lowering some entries of a node table to `None` cannot raise a count.
pub proof fn lemma_count_op_pointwise_le(s1: Seq<Option<Op>>, s2: Seq<Option<Op>>, t: Op)
    requires
        s1.len() == s2.len(),
        forall|x: int| 0 <= x < s2.len() ==> (#[trigger] s2[x]) == s1[x] || s2[x] is None,
    ensures
        count_op(s2, t) <= count_op(s1, t),
    decreases s1.len(),
{
    if s1.len() > 0 {
        assert(forall|x: int|
            0 <= x < s2.drop_last().len() ==> (#[trigger] s2.drop_last()[x]) == s2[x]);
        assert(forall|x: int|
            0 <= x < s1.drop_last().len() ==> (#[trigger] s1.drop_last()[x]) == s1[x]);
        lemma_count_op_pointwise_le(s1.drop_last(), s2.drop_last(), t);
        assert(s2[s2.len() - 1] == s1[s1.len() - 1] || s2[s2.len() - 1] is None);
    }
}

/// A structural match of the subtraction idiom `add(a, mul(b, -1))` rooted
/// at `r`, together with its guard and view precondition. `e1` is the edge
/// `mul -> add` (slot 1), `e2` the edge `const(-1) -> mul` (slot 1), `e3`
/// the edge `b -> mul` (slot 0), `e4` the edge `a -> add` (slot 0). The
/// guard demands that neither the terminal nor an intermediate is marked
/// must-survive and that no intermediate is consumed outside the match; the
/// precondition demands that the view on `mul -> add` is safe to inline.
pub open spec fn sub_binding_ok(g: GraphView, r: usize, e1: int, e2: int, e3: int, e4: int) -> bool {
    let m = g.edges[e1].src;
    let c = g.edges[e2].src;
    &&& g.live(r as int)
    &&& g.op_of(r as int) == Op::Add
    &&& !g.kept(r as int)
    &&& 0 <= e1 < g.edges.len()
    &&& g.edges[e1].dst == r
    &&& g.edges[e1].input_slot == 1
    &&& g.op_of(m as int) == Op::Mul
    &&& g.edges[e1].view.fusable()
    &&& !g.kept(m as int)
    &&& forall|k: int|
        0 <= k < g.edges.len() && (#[trigger] g.edges[k]).src == m ==> g.edges[k].dst == r
    &&& 0 <= e2 < g.edges.len()
    &&& g.edges[e2].dst == m
    &&& g.edges[e2].input_slot == 1
    &&& g.op_of(c as int) == Op::Constant(-1i64)
    &&& !g.kept(c as int)
    &&& forall|k: int|
        0 <= k < g.edges.len() && (#[trigger] g.edges[k]).src == c ==> g.edges[k].dst == m
    &&& 0 <= e3 < g.edges.len()
    &&& g.edges[e3].dst == m
    &&& g.edges[e3].input_slot == 0
    &&& g.edges[e3].src != r
    &&& 0 <= e4 < g.edges.len()
    &&& g.edges[e4].dst == r
    &&& g.edges[e4].input_slot == 0
    &&& g.edges[e4].src != r
}

/// Whether the subtraction idiom has an applicable match rooted at `r`.
pub open spec fn sub_applicable_at(g: GraphView, r: usize) -> bool {
    exists|e1: int, e2: int, e3: int, e4: int| #[trigger] sub_binding_ok(g, r, e1, e2, e3, e4)
}

/// Whether the subtraction idiom has any applicable match.
pub open spec fn sub_applicable(g: GraphView) -> bool {
    exists|r: usize| #[trigger] sub_applicable_at(g, r)
}

/// One applicable match of the subtraction idiom: the bound node ids and
/// the edge indices the binding rests on.
pub struct SubMatch {
    pub add: usize,
    pub mul: usize,
    pub cnst: usize,
    pub e_mul: usize,
    pub e_const: usize,
    pub e_b: usize,
    pub e_a: usize,
}

/// Whether every edge leaving `n` enters `t`.
pub(crate) fn outgoing_only_to(g: &Graph, n: usize, t: usize) -> (r: bool)
    ensures
        r == forall|k: int|
            0 <= k < g@.edges.len() && (#[trigger] g@.edges[k]).src == n ==> g@.edges[k].dst == t,
{
    let ne = g.edges.len();
    let mut k: usize = 0;
    while k < ne
        invariant
            k <= ne,
            ne == g@.edges.len(),
            forall|j: int|
                0 <= j < k && (#[trigger] g@.edges[j]).src == n ==> g@.edges[j].dst == t,
        decreases ne - k,
    {
        let e_src = g.edges[k].src;
        let e_dst = g.edges[k].dst;
        if e_src == n && e_dst != t {
            proof {
                assert((#[trigger] g@.edges[k as int]).src == n && g@.edges[k as int].dst != t);
            }
            return false;
        }
        k = k + 1;
    }
    true
}

/// First edge entering `dst` at `slot` from a source other than `not_src`.
pub(crate) fn find_edge_to_slot(g: &Graph, dst: usize, slot: usize, not_src: usize) -> (r: Option<
    usize,
>)
    ensures
        match r {
            Some(k) => 0 <= k < g@.edges.len() && g@.edges[k as int].dst == dst
                && g@.edges[k as int].input_slot == slot && g@.edges[k as int].src != not_src,
            None => forall|k: int|
                0 <= k < g@.edges.len() ==> !((#[trigger] g@.edges[k]).dst == dst
                    && g@.edges[k].input_slot == slot && g@.edges[k].src != not_src),
        },
{
    let ne = g.edges.len();
    let mut k: usize = 0;
    while k < ne
        invariant
            k <= ne,
            ne == g@.edges.len(),
            forall|j: int|
                0 <= j < k ==> !((#[trigger] g@.edges[j]).dst == dst && g@.edges[j].input_slot
                    == slot && g@.edges[j].src != not_src),
        decreases ne - k,
    {
        let e = &g.edges[k];
        if e.dst == dst && e.input_slot == slot && e.src != not_src {
            proof {
                assert(g@.edges[k as int].dst == dst && g@.edges[k as int].input_slot == slot
                    && g@.edges[k as int].src != not_src);
            }
            return Some(k);
        }
        k = k + 1;
    }
    None
}

/// First edge entering `m` at slot 1 whose source is an unguarded
/// `Constant(-1)` node consumed only by `m`.
fn find_neg_one_input(g: &Graph, m: usize) -> (r: Option<usize>)
    requires
        g@.wf(),
    ensures
        match r {
            Some(k) => 0 <= k < g@.edges.len() && g@.edges[k as int].dst == m
                && g@.edges[k as int].input_slot == 1 && g@.op_of(
                g@.edges[k as int].src as int,
            ) == Op::Constant(-1i64) && !g@.kept(g@.edges[k as int].src as int) && forall|j: int|
                0 <= j < g@.edges.len() && (#[trigger] g@.edges[j]).src == g@.edges[
                    k as int
                ].src ==> g@.edges[j].dst == m,
            None => forall|k: int|
                0 <= k < g@.edges.len() ==> !((#[trigger] g@.edges[k]).dst == m
                    && g@.edges[k].input_slot == 1 && g@.op_of(g@.edges[k].src as int)
                    == Op::Constant(-1i64) && !g@.kept(g@.edges[k].src as int) && forall|j: int|
                    0 <= j < g@.edges.len() && (#[trigger] g@.edges[j]).src == g@.edges[k].src
                        ==> g@.edges[j].dst == m),
        },
{
    let ne = g.edges.len();
    let mut k: usize = 0;
    while k < ne
        invariant
            k <= ne,
            ne == g@.edges.len(),
            g@.wf(),
            forall|x: int|
                0 <= x < k ==> !((#[trigger] g@.edges[x]).dst == m && g@.edges[x].input_slot == 1
                    && g@.op_of(g@.edges[x].src as int) == Op::Constant(-1i64) && !g@.kept(
                    g@.edges[x].src as int,
                ) && forall|j: int|
                    0 <= j < g@.edges.len() && (#[trigger] g@.edges[j]).src == g@.edges[x].src
                        ==> g@.edges[j].dst == m),
        decreases ne - k,
    {
        let e_dst = g.edges[k].dst;
        let e_slot = g.edges[k].input_slot;
        let e_src = g.edges[k].src;
        if e_dst == m && e_slot == 1 {
            proof {
                assert(g@.live(g@.edges[k as int].src as int));
            }
            let is_neg_one = match g.op(e_src) {
                Some(Op::Constant(v)) => v == -1,
                _ => false,
            };
            if is_neg_one && !g.is_kept(e_src) && outgoing_only_to(g, e_src, m) {
                return Some(k);
            }
        }
        k = k + 1;
    }
    None
}

/// Search for an applicable subtraction match rooted at `r`.
fn check_sub_at(g: &Graph, r: usize) -> (res: Option<SubMatch>)
    requires
        g@.wf(),
        r < g@.n(),
    ensures
        match res {
            Some(mm) => mm.add == r && sub_binding_ok(
                g@,
                r,
                mm.e_mul as int,
                mm.e_const as int,
                mm.e_b as int,
                mm.e_a as int,
            ) && mm.mul == g@.edges[mm.e_mul as int].src && mm.cnst == g@.edges[
                mm.e_const as int
            ].src,
            None => !sub_applicable_at(g@, r),
        },
{
    let is_add = match g.op(r) {
        Some(Op::Add) => true,
        _ => false,
    };
    if !is_add || g.is_kept(r) {
        proof {
            assert forall|e1: int, e2: int, e3: int, e4: int| !sub_binding_ok(
                g@,
                r,
                e1,
                e2,
                e3,
                e4,
            ) by {}
        }
        return None;
    }
    let ne = g.edges.len();
    let mut e1: usize = 0;
    while e1 < ne
        invariant
            e1 <= ne,
            ne == g@.edges.len(),
            g@.wf(),
            r < g@.n(),
            g@.live(r as int),
            g@.op_of(r as int) == Op::Add,
            !g@.kept(r as int),
            forall|x: int, e2: int, e3: int, e4: int|
                0 <= x < e1 ==> !(#[trigger] sub_binding_ok(g@, r, x, e2, e3, e4)),
        decreases ne - e1,
    {
        let ed_dst = g.edges[e1].dst;
        let ed_slot = g.edges[e1].input_slot;
        let m = g.edges[e1].src;
        let mut matched_here = false;
        if ed_dst == r && ed_slot == 1 {
            proof {
                assert(g@.live(g@.edges[e1 as int].src as int));
            }
            let is_mul = match g.op(m) {
                Some(Op::Mul) => true,
                _ => false,
            };
            if is_mul && g.edges[e1].view.is_fusable() && !g.is_kept(m) && outgoing_only_to(
                g,
                m,
                r,
            ) {
                match find_neg_one_input(g, m) {
                    Some(e2) => {
                        match find_edge_to_slot(g, m, 0, r) {
                            Some(e3) => {
                                match find_edge_to_slot(g, r, 0, r) {
                                    Some(e4) => {
                                        let cnst = g.edges[e2].src;
                                        proof {
                                            assert(sub_binding_ok(
                                                g@,
                                                r,
                                                e1 as int,
                                                e2 as int,
                                                e3 as int,
                                                e4 as int,
                                            ));
                                        }
                                        return Some(SubMatch {
                                            add: r,
                                            mul: m,
                                            cnst,
                                            e_mul: e1,
                                            e_const: e2,
                                            e_b: e3,
                                            e_a: e4,
                                        });
                                    },
                                    None => {
                                        proof {
                                            assert forall|e2x: int, e3x: int, e4x: int| !(
                                            #[trigger] sub_binding_ok(
                                                g@,
                                                r,
                                                e1 as int,
                                                e2x,
                                                e3x,
                                                e4x,
                                            )) by {}
                                        }
                                    },
                                }
                            },
                            None => {
                                proof {
                                    assert forall|e2x: int, e3x: int, e4x: int| !(
                                    #[trigger] sub_binding_ok(g@, r, e1 as int, e2x, e3x, e4x)) by {}
                                }
                            },
                        }
                    },
                    None => {
                        proof {
                            assert forall|e2x: int, e3x: int, e4x: int| !(
                            #[trigger] sub_binding_ok(g@, r, e1 as int, e2x, e3x, e4x)) by {}
                        }
                    },
                }
            } else {
                proof {
                    assert forall|e2x: int, e3x: int, e4x: int| !(#[trigger] sub_binding_ok(
                        g@,
                        r,
                        e1 as int,
                        e2x,
                        e3x,
                        e4x,
                    )) by {}
                }
            }
        } else {
            proof {
                assert forall|e2x: int, e3x: int, e4x: int| !(#[trigger] sub_binding_ok(
                    g@,
                    r,
                    e1 as int,
                    e2x,
                    e3x,
                    e4x,
                )) by {}
            }
        }
        e1 = e1 + 1;
    }
    proof {
        assert forall|e1x: int, e2x: int, e3x: int, e4x: int| !(#[trigger] sub_binding_ok(
            g@,
            r,
            e1x,
            e2x,
            e3x,
            e4x,
        )) by {}
        assert(!sub_applicable_at(g@, r));
    }
    None
}

/// Search the whole graph for the first applicable subtraction match.
fn find_sub_match(g: &Graph) -> (res: Option<SubMatch>)
    requires
        g@.wf(),
    ensures
        match res {
            Some(mm) => mm.add < g@.n() && sub_binding_ok(
                g@,
                mm.add,
                mm.e_mul as int,
                mm.e_const as int,
                mm.e_b as int,
                mm.e_a as int,
            ) && mm.mul == g@.edges[mm.e_mul as int].src && mm.cnst == g@.edges[
                mm.e_const as int
            ].src,
            None => !sub_applicable(g@),
        },
{
    let n = g.ops.len();
    let mut r: usize = 0;
    while r < n
        invariant
            r <= n,
            n == g@.n(),
            g@.wf(),
            forall|x: usize| x < r ==> !(#[trigger] sub_applicable_at(g@, x)),
        decreases n - r,
    {
        match check_sub_at(g, r) {
            Some(mm) => {
                return Some(mm);
            },
            None => {},
        }
        r = r + 1;
    }
    proof {
        assert forall|x: usize| !(#[trigger] sub_applicable_at(g@, x)) by {
            if x < n {
            } else {
                assert forall|e1: int, e2: int, e3: int, e4: int| !(#[trigger] sub_binding_ok(
                    g@,
                    x,
                    e1,
                    e2,
                    e3,
                    e4,
                )) by {}
            }
        }
    }
    None
}

/// Apply one subtraction rewrite: synthesize the fused operator with the
/// matched input views, rewire every edge leaving the terminal `add` to
/// leave the fused node, remove the terminal, and safe-delete the matched
/// intermediates.
fn apply_sub(g: &mut Graph, mm: &SubMatch)
    requires
        old(g)@.wf(),
        sub_binding_ok(
            old(g)@,
            mm.add,
            mm.e_mul as int,
            mm.e_const as int,
            mm.e_b as int,
            mm.e_a as int,
        ),
        mm.mul == old(g)@.edges[mm.e_mul as int].src,
        mm.cnst == old(g)@.edges[mm.e_const as int].src,
    ensures
        final(g)@.wf(),
        final(g)@.n() == old(g)@.n() + 1,
        final(g)@.keep == old(g)@.keep.push(false),
        final(g)@.ops[mm.add as int] is None,
        final(g)@.ops[old(g)@.n() as int] == Some(Op::FusedSub),
        forall|x: int|
            0 <= x < old(g)@.n() && x != mm.add as int && x != mm.mul as int && x != mm.cnst
                as int ==> final(g)@.ops[x] == old(g)@.ops[x],
        count_op(final(g)@.ops, Op::Add) < count_op(old(g)@.ops, Op::Add),
        forall|j: int|
            0 <= j < old(g)@.edges.len() && (#[trigger] old(g)@.edges[j]).src != mm.add
                && old(g)@.edges[j].src != mm.mul && old(g)@.edges[j].src != mm.cnst && old(
                g,
            )@.edges[j].dst != mm.add && old(g)@.edges[j].dst != mm.mul && old(g)@.edges[j].dst
                != mm.cnst ==> final(g)@.edges.contains(old(g)@.edges[j]),
        final(g)@.edges.contains(
            EdgeView {
                src: old(g)@.edges[mm.e_a as int].src,
                dst: old(g)@.n() as usize,
                input_slot: 0,
                output_slot: old(g)@.edges[mm.e_a as int].output_slot,
                view: old(g)@.edges[mm.e_a as int].view,
            },
        ),
        final(g)@.edges.contains(
            EdgeView {
                src: old(g)@.edges[mm.e_b as int].src,
                dst: old(g)@.n() as usize,
                input_slot: 1,
                output_slot: old(g)@.edges[mm.e_b as int].output_slot,
                view: old(g)@.edges[mm.e_b as int].view,
            },
        ),
{
    let ghost g0 = old(g)@;
    proof {
        assert(g0.op_of(mm.add as int) == Op::Add);
        assert(g0.op_of(mm.mul as int) == Op::Mul);
        assert(g0.op_of(mm.cnst as int) == Op::Constant(-1i64));
        assert(mm.add != mm.mul && mm.add != mm.cnst && mm.mul != mm.cnst);
        assert(g0.live(mm.mul as int) && g0.live(mm.cnst as int));
    }
    let a_src = g.edges[mm.e_a].src;
    let a_out = g.edges[mm.e_a].output_slot;
    let a_view = g.edges[mm.e_a].view.clone();
    let b_src = g.edges[mm.e_b].src;
    let b_out = g.edges[mm.e_b].output_slot;
    let b_view = g.edges[mm.e_b].view.clone();
    proof {
        assert(g0.live(a_src as int) && g0.live(b_src as int));
        assert(a_view@.wf() && b_view@.wf());
        assert(a_src != mm.add && b_src != mm.add);
    }
    let fused = g.add_node(Op::FusedSub);
    let ghost g1 = g@;
    proof {
        assert(g1.live(a_src as int) && g1.live(b_src as int) && g1.live(fused as int));
    }
    g.add_edge(a_src, fused, 0, a_out, a_view);
    let ghost g2 = g@;
    g.add_edge(b_src, fused, 1, b_out, b_view);
    let ghost g3 = g@;
    let ghost ea = EdgeView {
        src: g0.edges[mm.e_a as int].src,
        dst: fused,
        input_slot: 0,
        output_slot: g0.edges[mm.e_a as int].output_slot,
        view: g0.edges[mm.e_a as int].view,
    };
    let ghost eb = EdgeView {
        src: g0.edges[mm.e_b as int].src,
        dst: fused,
        input_slot: 1,
        output_slot: g0.edges[mm.e_b as int].output_slot,
        view: g0.edges[mm.e_b as int].view,
    };
    proof {
        assert(g3.edges == g0.edges.push(ea).push(eb));
        assert(g3.live(fused as int));
    }
    g.move_outgoing_edge(mm.add, fused);
    let ghost g4 = g@;
    proof {
        assert(g4.edges.len() == g0.edges.len() + 2);
        assert forall|j: int| 0 <= j < g0.edges.len() && (#[trigger] g0.edges[j]).src != mm.add
            implies g4.edges[j] == g0.edges[j] by {
            assert(g3.edges[j] == g0.edges[j]);
        }
        assert(g4.edges[g0.edges.len() as int] == ea) by {
            assert(g3.edges[g0.edges.len() as int] == ea);
            assert(ea.src != mm.add);
        }
        assert(g4.edges[g0.edges.len() as int + 1] == eb) by {
            assert(g3.edges[g0.edges.len() as int + 1] == eb);
            assert(eb.src != mm.add);
        }
    }
    g.remove_node(mm.add);
    let ghost g5 = g@;
    let mut candidates: Vec<usize> = Vec::new();
    candidates.push(mm.mul);
    candidates.push(mm.cnst);
    proof {
        assert(candidates@ =~= seq![mm.mul, mm.cnst]);
        assert(forall|j: int|
            0 <= j < candidates@.len() ==> (#[trigger] candidates@[j]) < g5.n());
        assert forall|x: usize| candidates@.contains(x) implies (x == mm.mul || x == mm.cnst) by {
            let i = choose|i: int| 0 <= i < candidates@.len() && candidates@[i] == x;
        }
        assert(candidates@.contains(mm.mul) && candidates@.contains(mm.cnst)) by {
            assert(candidates@[0] == mm.mul && candidates@[1] == mm.cnst);
        }
    }
    g.try_delete(&candidates);
    proof {
        let g6 = g@;
        // the node table: push, then the terminal removed, then only the
        // matched intermediates possibly removed
        assert(g5.ops == g0.ops.push(Some(Op::FusedSub)).update(mm.add as int, None));
        assert(fused as int == g0.n());
        assert(mm.add as int != fused as int && mm.mul as int != fused as int && mm.cnst
            as int != fused as int);
        assert forall|x: int|
            0 <= x < g0.n() && x != mm.add as int && x != mm.mul as int && x != mm.cnst
                as int implies g6.ops[x] == g0.ops[x] by {
            assert(!candidates@.contains(x as usize));
            assert(g6.ops[x] == g5.ops[x]);
        }
        assert(g6.ops[mm.add as int] is None) by {
            assert(!candidates@.contains(mm.add));
            assert(g6.ops[mm.add as int] == g5.ops[mm.add as int]);
        }
        assert(g6.ops[fused as int] == Some(Op::FusedSub)) by {
            assert(!candidates@.contains(fused));
            assert(g6.ops[fused as int] == g5.ops[fused as int]);
        }
        // the operator count of the template root went strictly down
        assert(count_op(g6.ops, Op::Add) < count_op(g0.ops, Op::Add)) by {
            lemma_count_op_push(g0.ops, Some(Op::FusedSub), Op::Add);
            lemma_count_op_update_none(g0.ops.push(Some(Op::FusedSub)), mm.add as int, Op::Add);
            assert(g0.ops.push(Some(Op::FusedSub))[mm.add as int] == Some(Op::Add));
            assert(count_op(g5.ops, Op::Add) == count_op(g0.ops, Op::Add) - 1);
            assert(forall|x: int|
                0 <= x < g6.ops.len() ==> (#[trigger] g6.ops[x]) == g5.ops[x]
                    || g6.ops[x] is None);
            lemma_count_op_pointwise_le(g5.ops, g6.ops, Op::Add);
        }
        // edges that never touched the match survive
        assert forall|j: int|
            0 <= j < g0.edges.len() && (#[trigger] g0.edges[j]).src != mm.add && g0.edges[j].src
                != mm.mul && g0.edges[j].src != mm.cnst && g0.edges[j].dst != mm.add
                && g0.edges[j].dst != mm.mul && g0.edges[j].dst != mm.cnst implies
        g6.edges.contains(g0.edges[j]) by {
            let e = g0.edges[j];
            assert(g4.edges[j] == e);
            crate::graph::lemma_edges_without_mem(g4.edges, mm.add);
            assert(g5.edges.contains(e));
            let w = choose|w: int| 0 <= w < g5.edges.len() && g5.edges[w] == e;
            assert(g6.ops[e.src as int] == g0.ops[e.src as int]);
            assert(g6.ops[e.dst as int] == g0.ops[e.dst as int]);
            crate::graph::lemma_edges_alive_mem(g5.edges, g6.ops);
            assert(g5.edges[w] == e);
            assert(g6.edges.contains(e));
        }
        // the fused node's two input edges survive
        assert(g6.edges.contains(ea)) by {
            assert(g4.edges[g0.edges.len() as int] == ea);
            assert(ea.src != mm.add && ea.dst != mm.add);
            crate::graph::lemma_edges_without_mem(g4.edges, mm.add);
            assert(g5.edges.contains(ea));
            let w = choose|w: int| 0 <= w < g5.edges.len() && g5.edges[w] == ea;
            assert(!candidates@.contains(g5.edges[w].dst));
            assert(g6.live(ea.src as int));
            assert(g6.ops[ea.dst as int] == g5.ops[ea.dst as int]);
            crate::graph::lemma_edges_alive_mem(g5.edges, g6.ops);
            assert(g6.edges.contains(ea));
        }
        assert(g6.edges.contains(eb)) by {
            assert(g4.edges[g0.edges.len() as int + 1] == eb);
            assert(eb.src != mm.add && eb.dst != mm.add);
            crate::graph::lemma_edges_without_mem(g4.edges, mm.add);
            assert(g5.edges.contains(eb));
            let w = choose|w: int| 0 <= w < g5.edges.len() && g5.edges[w] == eb;
            assert(!candidates@.contains(g5.edges[w].dst));
            assert(g6.live(eb.src as int));
            assert(g6.ops[eb.dst as int] == g5.ops[eb.dst as int]);
            crate::graph::lemma_edges_alive_mem(g5.edges, g6.ops);
            assert(g6.edges.contains(eb));
        }
    }
}

/// The subtraction fusion pass: rewrite every applicable occurrence of
/// `add(a, mul(b, -1))` into a single fused subtraction operator.
#[derive(Clone, Copy, Default, Debug)]
pub struct SubtractionCompiler;

impl SubtractionCompiler {
    /// Run the pass to a fixed point. On return no applicable match of the
    /// subtraction idiom remains; a graph that had none to begin with comes
    /// back unchanged with zero rewrites, so re-running the pass on its own
    /// output performs zero further rewrites. Nodes marked must-survive are
    /// never deleted and keep their operator.
    pub fn compile(&self, g: &mut Graph) -> (rewrites: usize)
        requires
            old(g)@.wf(),
        ensures
            final(g)@.wf(),
            !sub_applicable(final(g)@),
            !sub_applicable(old(g)@) ==> final(g)@ == old(g)@ && rewrites == 0,
            final(g)@.n() >= old(g)@.n(),
            forall|x: int|
                0 <= x < old(g)@.keep.len() ==> final(g)@.keep[x] == old(g)@.keep[x],
            forall|x: int|
                0 <= x < old(g)@.n() && old(g)@.live(x) && old(g)@.kept(x) ==> final(g)@.live(x)
                    && final(g)@.ops[x] == old(g)@.ops[x],
    {
        let mut rewrites: usize = 0;
        let bound = g.ops.len();
        proof {
            lemma_count_op_le_len(old(g)@.ops, Op::Add);
        }
        loop
            invariant
                g@.wf(),
                old(g)@.wf(),
                g@.n() >= old(g)@.n(),
                g@.keep.len() >= old(g)@.keep.len(),
                count_op(old(g)@.ops, Op::Add) <= bound,
                forall|x: int| 0 <= x < old(g)@.keep.len() ==> g@.keep[x] == old(g)@.keep[x],
                forall|x: int|
                    0 <= x < old(g)@.n() && old(g)@.live(x) && old(g)@.kept(x) ==> g@.live(x)
                        && g@.ops[x] == old(g)@.ops[x],
                rewrites == 0 ==> g@ == old(g)@,
                rewrites > 0 ==> sub_applicable(old(g)@),
                rewrites + count_op(g@.ops, Op::Add) <= count_op(old(g)@.ops, Op::Add),
            ensures
                g@.wf(),
                !sub_applicable(g@),
                g@.n() >= old(g)@.n(),
                forall|x: int| 0 <= x < old(g)@.keep.len() ==> g@.keep[x] == old(g)@.keep[x],
                forall|x: int|
                    0 <= x < old(g)@.n() && old(g)@.live(x) && old(g)@.kept(x) ==> g@.live(x)
                        && g@.ops[x] == old(g)@.ops[x],
                rewrites == 0 ==> g@ == old(g)@,
                rewrites > 0 ==> sub_applicable(old(g)@),
            decreases count_op(g@.ops, Op::Add),
        {
            let ghost pre = g@;
            let found = find_sub_match(g);
            match found {
                None => {
                    break ;
                },
                Some(mm) => {
                    proof {
                        assert(sub_binding_ok(
                            pre,
                            mm.add,
                            mm.e_mul as int,
                            mm.e_const as int,
                            mm.e_b as int,
                            mm.e_a as int,
                        ));
                        assert(sub_applicable_at(pre, mm.add));
                        assert(sub_applicable(pre));
                        lemma_count_op_le_len(old(g)@.ops, Op::Add);
                        assert(count_op(pre.ops, Op::Add) >= 1) by {
                            lemma_count_op_at_least_one(pre.ops, mm.add as int, Op::Add);
                        }
                    }
                    apply_sub(g, &mm);
                    proof {
                        assert forall|x: int|
                            0 <= x < old(g)@.n() && old(g)@.live(x) && old(g)@.kept(x) implies
                        g@.live(x) && g@.ops[x] == old(g)@.ops[x] by {
                            assert(pre.live(x) && pre.ops[x] == old(g)@.ops[x]);
                            assert(pre.kept(x));
                            assert(x != mm.add as int && x != mm.mul as int && x != mm.cnst
                                as int);
                            assert(g@.ops[x] == pre.ops[x]);
                        }
                    }
                    rewrites = rewrites + 1;
                },
            }
        }
        rewrites
    }
}

/// A table holding `Some(t)` at a live index counts `t` at least once.
pub proof fn lemma_count_op_at_least_one(s: Seq<Option<Op>>, i: int, t: Op)
    requires
        0 <= i < s.len(),
        s[i] == Some(t),
    ensures
        count_op(s, t) >= 1,
    decreases s.len(),
{
    if i == s.len() - 1 {
    } else {
        assert(s.drop_last()[i] == s[i]);
        lemma_count_op_at_least_one(s.drop_last(), i, t);
    }
}

} // verus!
