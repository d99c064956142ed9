//! The computation graph and its mutation primitives.
//!
//! Nodes carry an operator tag; edges carry the consuming input slot, the
//! producing output slot, and the view descriptor of the data crossing them.
//! Fusion passes mutate the graph through a small set of primitives: moving
//! the outgoing or incoming edges of a node to another node, removing a
//! node outright, and a safe-delete helper that removes candidate nodes only
//! while nothing still consumes them and no caller marked them as
//! must-survive.

use vstd::prelude::*;

use crate::shape::{ShapeTracker, ShapeView};

verus! {

/// Operator tag of a node. Generic elementwise and reduction operators come
/// out of graph construction; the fused variants are introduced by the
/// compiler passes; `Foreign` stands for any operator this crate's passes do
/// not inspect.
#[derive(Clone, Copy, PartialEq, Eq, Structural, Debug)]
pub enum Op {
    Add,
    Mul,
    LessThan,
    SumReduce,
    ARange,
    Constant(i64),
    FusedSub,
    FusedEqual,
    FusedGather(u64),
    Foreign(u64),
}

/// A directed edge: `src`'s output `output_slot` feeds `dst`'s input
/// `input_slot`, read through `view`.
#[derive(Debug)]
pub struct Edge {
    pub src: usize,
    pub dst: usize,
    pub input_slot: usize,
    pub output_slot: usize,
    pub view: ShapeTracker,
}

/// The mathematical value of an `Edge`.
#[verifier::ext_equal]
pub struct EdgeView {
    pub src: usize,
    pub dst: usize,
    pub input_slot: usize,
    pub output_slot: usize,
    pub view: ShapeView,
}

impl View for Edge {
    type V = EdgeView;

    open spec fn view(&self) -> EdgeView {
        EdgeView {
            src: self.src,
            dst: self.dst,
            input_slot: self.input_slot,
            output_slot: self.output_slot,
            view: self.view@,
        }
    }
}

impl Clone for Edge {
    fn clone(&self) -> (r: Self)
        ensures
            r@ == self@,
    {
        Edge {
            src: self.src,
            dst: self.dst,
            input_slot: self.input_slot,
            output_slot: self.output_slot,
            view: self.view.clone(),
        }
    }
}

/// A computation graph. A node id is an index into `ops`; a removed node
/// leaves `None` behind so ids of surviving nodes stay stable. `keep` holds
/// the externally supplied must-survive marks.
#[derive(Debug)]
pub struct Graph {
    pub ops: Vec<Option<Op>>,
    pub edges: Vec<Edge>,
    pub keep: Vec<bool>,
}

/// The mathematical value of a `Graph`.
#[verifier::ext_equal]
pub struct GraphView {
    pub ops: Seq<Option<Op>>,
    pub edges: Seq<EdgeView>,
    pub keep: Seq<bool>,
}

impl View for Graph {
    type V = GraphView;

    open spec fn view(&self) -> GraphView {
        GraphView {
            ops: self.ops@,
            edges: self.edges@.map_values(|e: Edge| e@),
            keep: self.keep@,
        }
    }
}

impl GraphView {
    /// Number of node slots ever allocated.
    pub open spec fn n(self) -> nat {
        self.ops.len()
    }

    /// Whether node `i` exists and has not been removed.
    pub open spec fn live(self, i: int) -> bool {
        0 <= i < self.ops.len() && self.ops[i] is Some
    }

    /// The operator of live node `i`.
    pub open spec fn op_of(self, i: int) -> Op
        recommends
            self.live(i),
    {
        self.ops[i].unwrap()
    }

    /// Whether node `i` carries the must-survive mark.
    pub open spec fn kept(self, i: int) -> bool {
        0 <= i < self.keep.len() && self.keep[i]
    }

    /// Whether some edge leaves node `i`.
    pub open spec fn has_out_edge(self, i: int) -> bool {
        exists|k: int| 0 <= k < self.edges.len() && (#[trigger] self.edges[k]).src == i
    }

    /// Every edge joins two live nodes through a well-formed view, and the
    /// must-survive marks cover all node slots.
    pub open spec fn wf(self) -> bool {
        &&& self.keep.len() == self.ops.len()
        &&& forall|k: int|
            0 <= k < self.edges.len() ==> self.live((#[trigger] self.edges[k]).src as int)
                && self.live(self.edges[k].dst as int) && self.edges[k].view.wf()
    }
}

/// The do-not-delete condition: some designated (matched, not excluded)
/// node is marked must-survive or is consumed by a node outside the match.
pub open spec fn no_delete_check(g: GraphView, matched: Seq<usize>, exclude: Seq<usize>) -> bool {
    exists|k: int|
        0 <= k < matched.len() && !exclude.contains(#[trigger] matched[k]) && (g.kept(
            matched[k] as int,
        ) || exists|i: int|
            0 <= i < g.edges.len() && (#[trigger] g.edges[i]).src == matched[k]
                && !matched.contains(g.edges[i].dst))
}

/// The edges of `s` not incident to node `n`, in order.
pub open spec fn edges_without(s: Seq<EdgeView>, n: usize) -> Seq<EdgeView>
    decreases s.len(),
{
    if s.len() == 0 {
        Seq::empty()
    } else {
        let rest = edges_without(s.drop_last(), n);
        if s.last().src != n && s.last().dst != n {
            rest.push(s.last())
        } else {
            rest
        }
    }
}

/// The edges of `s` whose endpoints are both live under `ops`, in order.
pub open spec fn edges_alive(s: Seq<EdgeView>, ops: Seq<Option<Op>>) -> Seq<EdgeView>
    decreases s.len(),
{
    if s.len() == 0 {
        Seq::empty()
    } else {
        let rest = edges_alive(s.drop_last(), ops);
        if ops[s.last().src as int] is Some && ops[s.last().dst as int] is Some {
            rest.push(s.last())
        } else {
            rest
        }
    }
}

/// Number of live entries in a node table.
pub open spec fn count_some(s: Seq<Option<Op>>) -> nat
    decreases s.len(),
{
    if s.len() == 0 {
        0
    } else {
        count_some(s.drop_last()) + (if s.last() is Some {
            1nat
        } else {
            0nat
        })
    }
}

/// Removing a live node strictly lowers the live count.
pub proof fn lemma_count_some_update_none(s: Seq<Option<Op>>, i: int)
    requires
        0 <= i < s.len(),
        s[i] is Some,
    ensures
        count_some(s.update(i, None)) < count_some(s),
    decreases s.len(),
{
    if i == s.len() - 1 {
        assert(s.update(i, None).drop_last() =~= s.drop_last());
    } else {
        assert(s.update(i, None).drop_last() =~= s.drop_last().update(i, None));
        lemma_count_some_update_none(s.drop_last(), i);
    }
}

/// `edges_without` over a sequence extended by one edge.
pub proof fn lemma_edges_without_push(s: Seq<EdgeView>, e: EdgeView, n: usize)
    ensures
        edges_without(s.push(e), n) == (if e.src != n && e.dst != n {
            edges_without(s, n).push(e)
        } else {
            edges_without(s, n)
        }),
{
    assert(s.push(e).drop_last() =~= s);
    assert(s.push(e).last() == e);
}

/// An edge not incident to `n` survives `edges_without`.
pub proof fn lemma_edges_without_mem(s: Seq<EdgeView>, n: usize)
    ensures
        forall|j: int|
            0 <= j < s.len() && (#[trigger] s[j]).src != n && s[j].dst != n ==> edges_without(
                s,
                n,
            ).contains(s[j]),
    decreases s.len(),
{
    if s.len() > 0 {
        lemma_edges_without_mem(s.drop_last(), n);
        let t = edges_without(s.drop_last(), n);
        assert forall|j: int|
            0 <= j < s.len() && (#[trigger] s[j]).src != n && s[j].dst != n implies edges_without(
            s,
            n,
        ).contains(s[j]) by {
            if j == s.len() - 1 {
                assert(s.last() == s[j]);
                assert(edges_without(s, n) == t.push(s[j]));
                assert(edges_without(s, n)[t.len() as int] == s[j]);
            } else {
                assert(s.drop_last()[j] == s[j]);
                assert(t.contains(s[j]));
                let i = choose|i: int| 0 <= i < t.len() && t[i] == s[j];
                if s.last().src != n && s.last().dst != n {
                    assert(edges_without(s, n)[i] == s[j]);
                } else {
                    assert(edges_without(s, n)[i] == s[j]);
                }
            }
        }
    }
}

/// An edge between live nodes survives `edges_alive`.
pub proof fn lemma_edges_alive_mem(s: Seq<EdgeView>, ops: Seq<Option<Op>>)
    ensures
        forall|j: int|
            0 <= j < s.len() && ops[(#[trigger] s[j]).src as int] is Some && ops[s[j].dst
                as int] is Some ==> edges_alive(s, ops).contains(s[j]),
    decreases s.len(),
{
    if s.len() > 0 {
        lemma_edges_alive_mem(s.drop_last(), ops);
        let t = edges_alive(s.drop_last(), ops);
        assert forall|j: int|
            0 <= j < s.len() && ops[(#[trigger] s[j]).src as int] is Some && ops[s[j].dst
                as int] is Some implies edges_alive(s, ops).contains(s[j]) by {
            if j == s.len() - 1 {
                assert(s.last() == s[j]);
                assert(edges_alive(s, ops) == t.push(s[j]));
                assert(edges_alive(s, ops)[t.len() as int] == s[j]);
            } else {
                assert(s.drop_last()[j] == s[j]);
                assert(t.contains(s[j]));
                let i = choose|i: int| 0 <= i < t.len() && t[i] == s[j];
                if ops[s.last().src as int] is Some && ops[s.last().dst as int] is Some {
                    assert(edges_alive(s, ops)[i] == s[j]);
                } else {
                    assert(edges_alive(s, ops)[i] == s[j]);
                }
            }
        }
    }
}

/// When every edge of `s` joins live nodes, filtering by liveness keeps all
/// of `s`.
pub proof fn lemma_edges_alive_id(s: Seq<EdgeView>, ops: Seq<Option<Op>>)
    requires
        forall|k: int|
            0 <= k < s.len() ==> (#[trigger] s[k]).src < ops.len() && ops[s[k].src as int] is Some
                && s[k].dst < ops.len() && ops[s[k].dst as int] is Some,
    ensures
        edges_alive(s, ops) == s,
    decreases s.len(),
{
    if s.len() == 0 {
        assert(edges_alive(s, ops) =~= s);
    } else {
        assert(forall|k: int|
            0 <= k < s.drop_last().len() ==> (#[trigger] s.drop_last()[k]) == s[k]);
        lemma_edges_alive_id(s.drop_last(), ops);
        assert(s[s.len() - 1] == s.last());
        assert(edges_alive(s, ops) =~= s);
    }
}

/// Removing node `c` from the live set commutes with dropping its incident
/// edges.
pub proof fn lemma_edges_without_alive(s: Seq<EdgeView>, ops: Seq<Option<Op>>, c: usize)
    requires
        forall|k: int|
            0 <= k < s.len() ==> (#[trigger] s[k]).src < ops.len() && s[k].dst < ops.len(),
        c < ops.len(),
    ensures
        edges_without(edges_alive(s, ops), c) == edges_alive(s, ops.update(c as int, None)),
    decreases s.len(),
{
    let ops2 = ops.update(c as int, None);
    if s.len() == 0 {
        assert(edges_without(edges_alive(s, ops), c) =~= edges_alive(s, ops2));
    } else {
        assert(forall|k: int|
            0 <= k < s.drop_last().len() ==> (#[trigger] s.drop_last()[k]) == s[k]);
        lemma_edges_without_alive(s.drop_last(), ops, c);
        let e = s.last();
        assert(s[s.len() - 1] == e);
        if ops[e.src as int] is Some && ops[e.dst as int] is Some {
            lemma_edges_without_push(edges_alive(s.drop_last(), ops), e, c);
        }
    }
}

/// Whether `v` holds `x`.
pub fn vec_contains(v: &Vec<usize>, x: usize) -> (r: bool)
    ensures
        r == v@.contains(x),
{
    let n = v.len();
    let mut i: usize = 0;
    while i < n
        invariant
            i <= n,
            n == v@.len(),
            forall|k: int| 0 <= k < i ==> v@[k] != x,
        decreases n - i,
    {
        if v[i] == x {
            return true;
        }
        i = i + 1;
    }
    false
}

impl Graph {
    /// An empty graph.
    pub fn new() -> (r: Graph)
        ensures
            r@.ops.len() == 0,
            r@.edges.len() == 0,
            r@.keep.len() == 0,
            r@.wf(),
    {
        Graph { ops: Vec::new(), edges: Vec::new(), keep: Vec::new() }
    }

    /// Add a node carrying `op`; returns its id.
    pub fn add_node(&mut self, op: Op) -> (id: usize)
        requires
            old(self)@.wf(),
        ensures
            final(self)@.wf(),
            id == old(self)@.n(),
            final(self)@.ops == old(self)@.ops.push(Some(op)),
            final(self)@.keep == old(self)@.keep.push(false),
            final(self)@.edges == old(self)@.edges,
    {
        let id = self.ops.len();
        self.ops.push(Some(op));
        self.keep.push(false);
        proof {
            assert(self@.edges =~= old(self)@.edges);
        }
        id
    }

    /// Connect `src`'s output `output_slot` to `dst`'s input `input_slot`
    /// through `view`.
    pub fn add_edge(&mut self, src: usize, dst: usize, input_slot: usize, output_slot: usize, view: ShapeTracker) -> (r: ())
        requires
            old(self)@.wf(),
            old(self)@.live(src as int),
            old(self)@.live(dst as int),
            view@.wf(),
        ensures
            final(self)@.wf(),
            final(self)@.ops == old(self)@.ops,
            final(self)@.keep == old(self)@.keep,
            final(self)@.edges == old(self)@.edges.push(
                EdgeView { src, dst, input_slot, output_slot, view: view@ },
            ),
    {
        let ghost vw = view@;
        self.edges.push(Edge { src, dst, input_slot, output_slot, view });
        proof {
            assert(self@.edges =~= old(self)@.edges.push(
                EdgeView { src, dst, input_slot, output_slot, view: vw },
            ));
        }
    }

    /// Mark node `i` as must-survive: no pass may delete it.
    pub fn mark_no_delete(&mut self, i: usize)
        requires
            old(self)@.wf(),
            i < old(self)@.n(),
        ensures
            final(self)@.wf(),
            final(self)@.ops == old(self)@.ops,
            final(self)@.edges == old(self)@.edges,
            final(self)@.keep == old(self)@.keep.update(i as int, true),
    {
        self.keep.set(i, true);
        proof {
            assert(self@.edges =~= old(self)@.edges);
        }
    }

    /// The operator of node `i`, or `None` if it was removed.
    pub fn op(&self, i: usize) -> (r: Option<Op>)
        requires
            i < self@.n(),
        ensures
            r == self@.ops[i as int],
    {
        self.ops[i]
    }

    /// Whether node `i` carries the must-survive mark.
    pub fn is_kept(&self, i: usize) -> (r: bool)
        requires
            i < self@.keep.len(),
        ensures
            r == self@.kept(i as int),
    {
        self.keep[i]
    }

    /// Whether some edge leaves node `i`.
    pub fn has_out_edge(&self, i: usize) -> (r: bool)
        ensures
            r == self@.has_out_edge(i as int),
    {
        let n = self.edges.len();
        let mut k: usize = 0;
        while k < n
            invariant
                k <= n,
                n == self@.edges.len(),
                forall|j: int| 0 <= j < k ==> (#[trigger] self@.edges[j]).src != i,
            decreases n - k,
        {
            if self.edges[k].src == i {
                proof {
                    assert(self@.edges[k as int].src == i);
                }
                return true;
            }
            k = k + 1;
        }
        false
    }

    /// Remove node `i` and every edge incident to it.
    pub fn remove_node(&mut self, i: usize)
        requires
            old(self)@.wf(),
            i < old(self)@.n(),
        ensures
            final(self)@.wf(),
            final(self)@.ops == old(self)@.ops.update(i as int, None),
            final(self)@.keep == old(self)@.keep,
            final(self)@.edges == edges_without(old(self)@.edges, i),
    {
        self.ops.set(i, None);
        let ghost orig = old(self)@.edges;
        let n = self.edges.len();
        let mut new_edges: Vec<Edge> = Vec::new();
        let mut k: usize = 0;
        proof {
            assert(orig.take(0) =~= Seq::<EdgeView>::empty());
            assert(edges_without(orig.take(0), i) =~= new_edges@.map_values(|e: Edge| e@));
        }
        while k < n
            invariant
                k <= n,
                n == self.edges@.len(),
                self.edges@.map_values(|e: Edge| e@) == orig,
                orig == old(self)@.edges,
                old(self)@.wf(),
                new_edges@.map_values(|e: Edge| e@) == edges_without(orig.take(k as int), i),
                forall|j: int|
                    0 <= j < new_edges@.len() ==> ((#[trigger] new_edges@[j]@).src != i
                        && new_edges@[j]@.dst != i && old(self)@.live(new_edges@[j]@.src as int)
                        && old(self)@.live(new_edges@[j]@.dst as int)
                        && new_edges@[j]@.view.wf()),
            decreases n - k,
        {
            let ghost prev = new_edges@;
            proof {
                orig.lemma_take_succ_push(k as int);
                lemma_edges_without_push(orig.take(k as int), orig[k as int], i);
                assert(self.edges@[k as int]@ == orig[k as int]);
            }
            let e = &self.edges[k];
            if e.src != i && e.dst != i {
                let c = e.clone();
                new_edges.push(c);
                proof {
                    assert(orig[k as int].src != i && orig[k as int].dst != i);
                    assert(new_edges@.map_values(|e: Edge| e@) =~= prev.map_values(
                        |e: Edge| e@,
                    ).push(orig[k as int]));
                    assert(new_edges@.map_values(|e: Edge| e@) == edges_without(
                        orig.take(k as int + 1),
                        i,
                    ));
                    assert(0 <= k < old(self)@.edges.len());
                    assert(old(self)@.live((old(self)@.edges[k as int]).src as int) && old(
                        self,
                    )@.live((old(self)@.edges[k as int]).dst as int));
                    assert(old(self)@.live(orig[k as int].src as int) && old(self)@.live(
                        orig[k as int].dst as int,
                    ));
                    assert forall|j: int| 0 <= j < new_edges@.len() implies ((
                    #[trigger] new_edges@[j]@).src != i && new_edges@[j]@.dst != i && old(
                        self,
                    )@.live(new_edges@[j]@.src as int) && old(self)@.live(
                        new_edges@[j]@.dst as int,
                    ) && new_edges@[j]@.view.wf()) by {
                        if j == new_edges@.len() - 1 {
                            assert(new_edges@[j] == c);
                            assert(new_edges@[j]@ == orig[k as int]);
                            assert(orig[k as int].view.wf());
                        } else {
                            assert(new_edges@[j] == prev[j]);
                            assert(prev[j]@.src != i && prev[j]@.dst != i && old(self)@.live(
                                prev[j]@.src as int,
                            ) && old(self)@.live(prev[j]@.dst as int) && prev[j]@.view.wf());
                        }
                    }
                }
            } else {
                proof {
                    assert(!(orig[k as int].src != i && orig[k as int].dst != i));
                    assert(edges_without(orig.take(k as int + 1), i) == edges_without(
                        orig.take(k as int),
                        i,
                    ));
                }
            }
            k = k + 1;
        }
        proof {
            assert(orig.take(n as int) =~= orig);
        }
        self.edges = new_edges;
        proof {
            assert forall|k2: int| 0 <= k2 < self@.edges.len() implies self@.live(
                (#[trigger] self@.edges[k2]).src as int,
            ) && self@.live(self@.edges[k2].dst as int) && self@.edges[k2].view.wf() by {
                assert(self@.edges[k2] == self.edges@[k2]@);
                assert(old(self)@.live(self@.edges[k2].src as int));
                assert(old(self)@.live(self@.edges[k2].dst as int));
            }
        }
    }

    /// Redirect every edge leaving `from` to leave `to` instead, keeping
    /// slots and view.
    pub fn move_outgoing_edge(&mut self, from: usize, to: usize)
        requires
            old(self)@.wf(),
            old(self)@.live(to as int),
        ensures
            final(self)@.wf(),
            final(self)@.ops == old(self)@.ops,
            final(self)@.keep == old(self)@.keep,
            final(self)@.edges.len() == old(self)@.edges.len(),
            forall|k: int|
                0 <= k < final(self)@.edges.len() ==> (#[trigger] final(self)@.edges[k]) == (if old(
                    self,
                )@.edges[k].src == from {
                    EdgeView { src: to, ..old(self)@.edges[k] }
                } else {
                    old(self)@.edges[k]
                }),
    {
        let n = self.edges.len();
        let mut k: usize = 0;
        while k < n
            invariant
                k <= n,
                n == self.edges@.len(),
                self@.wf(),
                self@.ops == old(self)@.ops,
                self@.keep == old(self)@.keep,
                self@.live(to as int),
                self@.edges.len() == old(self)@.edges.len(),
                forall|j: int|
                    k <= j < self@.edges.len() ==> (#[trigger] self@.edges[j]) == old(
                        self,
                    )@.edges[j],
                forall|j: int|
                    0 <= j < k ==> (#[trigger] self@.edges[j]) == (if old(self)@.edges[j].src
                        == from {
                        EdgeView { src: to, ..old(self)@.edges[j] }
                    } else {
                        old(self)@.edges[j]
                    }),
            decreases n - k,
        {
            let ghost pre = self@.edges;
            proof {
                assert(self@.edges[k as int] == old(self)@.edges[k as int]);
                assert(self@.edges[k as int] == self.edges@[k as int]@);
            }
            let e = &self.edges[k];
            if e.src == from {
                let c = Edge {
                    src: to,
                    dst: e.dst,
                    input_slot: e.input_slot,
                    output_slot: e.output_slot,
                    view: e.view.clone(),
                };
                proof {
                    assert(e@ == old(self)@.edges[k as int]);
                    assert(c@ == (EdgeView { src: to, ..old(self)@.edges[k as int] }));
                }
                self.edges.set(k, c);
                proof {
                    assert(self@.edges[k as int] == c@);
                    assert forall|j: int|
                        0 <= j < self@.edges.len() && j != k as int implies (
                    #[trigger] self@.edges[j]) == pre[j] by {}
                }
            }
            k = k + 1;
        }
    }

    /// Redirect every edge entering `into` to enter `to` instead, keeping
    /// slots and view.
    pub fn move_incoming_edge(&mut self, into: usize, to: usize)
        requires
            old(self)@.wf(),
            old(self)@.live(to as int),
        ensures
            final(self)@.wf(),
            final(self)@.ops == old(self)@.ops,
            final(self)@.keep == old(self)@.keep,
            final(self)@.edges.len() == old(self)@.edges.len(),
            forall|k: int|
                0 <= k < final(self)@.edges.len() ==> (#[trigger] final(self)@.edges[k]) == (if old(
                    self,
                )@.edges[k].dst == into {
                    EdgeView { dst: to, ..old(self)@.edges[k] }
                } else {
                    old(self)@.edges[k]
                }),
    {
        let n = self.edges.len();
        let mut k: usize = 0;
        while k < n
            invariant
                k <= n,
                n == self.edges@.len(),
                self@.wf(),
                self@.ops == old(self)@.ops,
                self@.keep == old(self)@.keep,
                self@.live(to as int),
                self@.edges.len() == old(self)@.edges.len(),
                forall|j: int|
                    k <= j < self@.edges.len() ==> (#[trigger] self@.edges[j]) == old(
                        self,
                    )@.edges[j],
                forall|j: int|
                    0 <= j < k ==> (#[trigger] self@.edges[j]) == (if old(self)@.edges[j].dst
                        == into {
                        EdgeView { dst: to, ..old(self)@.edges[j] }
                    } else {
                        old(self)@.edges[j]
                    }),
            decreases n - k,
        {
            let ghost pre = self@.edges;
            proof {
                assert(self@.edges[k as int] == old(self)@.edges[k as int]);
                assert(self@.edges[k as int] == self.edges@[k as int]@);
            }
            let e = &self.edges[k];
            if e.dst == into {
                let c = Edge {
                    src: e.src,
                    dst: to,
                    input_slot: e.input_slot,
                    output_slot: e.output_slot,
                    view: e.view.clone(),
                };
                proof {
                    assert(e@ == old(self)@.edges[k as int]);
                    assert(c@ == (EdgeView { dst: to, ..old(self)@.edges[k as int] }));
                }
                self.edges.set(k, c);
                proof {
                    assert(self@.edges[k as int] == c@);
                    assert forall|j: int|
                        0 <= j < self@.edges.len() && j != k as int implies (
                    #[trigger] self@.edges[j]) == pre[j] by {}
                }
            }
            k = k + 1;
        }
    }

    /// The do-not-delete guard: reports whether any matched node outside
    /// `exclude` is marked must-survive or is consumed by a node outside the
    /// match. Callers skip a rewrite when this trips; the fusion passes fold
    /// the same condition into their match predicates, so an applicable
    /// match never deletes a node something else still needs.
    pub fn check_no_delete(&self, matched: &Vec<usize>, exclude: &Vec<usize>) -> (r: bool)
        requires
            self@.wf(),
            forall|k: int| 0 <= k < matched@.len() ==> (#[trigger] matched@[k]) < self@.n(),
        ensures
            r == no_delete_check(self@, matched@, exclude@),
    {
        let m = matched.len();
        let mut k: usize = 0;
        while k < m
            invariant
                k <= m,
                m == matched@.len(),
                self@.wf(),
                forall|j: int| 0 <= j < matched@.len() ==> (#[trigger] matched@[j]) < self@.n(),
                forall|j: int|
                    0 <= j < k ==> !(!exclude@.contains(#[trigger] matched@[j]) && (self@.kept(
                        matched@[j] as int,
                    ) || exists|i: int|
                        0 <= i < self@.edges.len() && (#[trigger] self@.edges[i]).src == matched@[j]
                            && !matched@.contains(self@.edges[i].dst))),
            decreases m - k,
        {
            let node = matched[k];
            if !vec_contains(exclude, node) {
                if self.keep[node] {
                    proof {
                        assert(!exclude@.contains(matched@[k as int]) && self@.kept(
                            matched@[k as int] as int,
                        ));
                    }
                    return true;
                }
                let ne = self.edges.len();
                let mut i: usize = 0;
                while i < ne
                    invariant
                        i <= ne,
                        ne == self@.edges.len(),
                        self@.wf(),
                        k < m,
                        m == matched@.len(),
                        node == matched@[k as int],
                        !exclude@.contains(matched@[k as int]),
                        !self@.kept(matched@[k as int] as int),
                        forall|j: int|
                            0 <= j < i ==> !((#[trigger] self@.edges[j]).src == node
                                && !matched@.contains(self@.edges[j].dst)),
                    decreases ne - i,
                {
                    let e_src = self.edges[i].src;
                    let e_dst = self.edges[i].dst;
                    if e_src == node && !vec_contains(matched, e_dst) {
                        proof {
                            assert((#[trigger] self@.edges[i as int]).src == matched@[k as int]
                                && !matched@.contains(self@.edges[i as int].dst));
                        }
                        return true;
                    }
                    i = i + 1;
                }
            }
            k = k + 1;
        }
        false
    }

    /// First candidate that is live, unmarked and consumed by nothing.
    fn find_removable(&self, candidates: &Vec<usize>) -> (r: Option<usize>)
        requires
            self@.wf(),
            forall|j: int| 0 <= j < candidates@.len() ==> (#[trigger] candidates@[j]) < self@.n(),
        ensures
            match r {
                Some(c) => candidates@.contains(c) && self@.live(c as int) && !self@.kept(c as int)
                    && !self@.has_out_edge(c as int),
                None => forall|j: int|
                    0 <= j < candidates@.len() ==> !(self@.live((#[trigger] candidates@[j]) as int)
                        && !self@.kept(candidates@[j] as int) && !self@.has_out_edge(
                        candidates@[j] as int,
                    )),
            },
    {
        let m = candidates.len();
        let mut j: usize = 0;
        while j < m
            invariant
                j <= m,
                m == candidates@.len(),
                self@.wf(),
                forall|t: int| 0 <= t < candidates@.len() ==> (#[trigger] candidates@[t])
                    < self@.n(),
                forall|t: int|
                    0 <= t < j ==> !(self@.live((#[trigger] candidates@[t]) as int) && !self@.kept(
                        candidates@[t] as int,
                    ) && !self@.has_out_edge(candidates@[t] as int)),
            decreases m - j,
        {
            let c = candidates[j];
            let live = match self.op(c) {
                Some(_) => true,
                None => false,
            };
            if live && !self.is_kept(c) && !self.has_out_edge(c) {
                return Some(c);
            }
            j = j + 1;
        }
        None
    }

    /// The try-delete helper: remove every candidate that has become
    /// unreachable, leaving behind any candidate still required by a
    /// surviving consumer or marked must-survive. Nothing outside
    /// `candidates` is touched.
    pub fn try_delete(&mut self, candidates: &Vec<usize>)
        requires
            old(self)@.wf(),
            forall|j: int| 0 <= j < candidates@.len() ==> (#[trigger] candidates@[j]) < old(
                self,
            )@.n(),
        ensures
            final(self)@.wf(),
            final(self)@.n() == old(self)@.n(),
            final(self)@.keep == old(self)@.keep,
            forall|x: int|
                0 <= x < final(self)@.n() && !candidates@.contains(x as usize) ==> final(self)@.ops[x] == old(self)@.ops[x],
            forall|x: int|
                0 <= x < final(self)@.n() && final(self)@.live(x) ==> old(self)@.live(x) && final(self)@.ops[x] == old(self)@.ops[x],
            forall|x: int|
                0 <= x < final(self)@.n() && old(self)@.live(x) && old(self)@.kept(x) ==> final(self)@.live(x),
            forall|j: int|
                0 <= j < candidates@.len() && final(self)@.live(
                    (#[trigger] candidates@[j]) as int,
                ) ==> (final(self)@.kept(candidates@[j] as int) || final(self)@.has_out_edge(
                    candidates@[j] as int,
                )),
            final(self)@.edges == edges_alive(old(self)@.edges, final(self)@.ops),
            forall|j: int|
                0 <= j < old(self)@.edges.len() && !candidates@.contains(
                    (#[trigger] old(self)@.edges[j]).dst,
                ) ==> final(self)@.live(old(self)@.edges[j].src as int),
    {
        proof {
            lemma_edges_alive_id(old(self)@.edges, old(self)@.ops);
        }
        loop
            invariant
                self@.wf(),
                self@.n() == old(self)@.n(),
                self@.keep == old(self)@.keep,
                old(self)@.wf(),
                forall|j: int| 0 <= j < candidates@.len() ==> (#[trigger] candidates@[j]) < old(
                    self,
                )@.n(),
                forall|x: int|
                    0 <= x < self@.n() && !candidates@.contains(x as usize) ==> self@.ops[x] == old(
                        self,
                    )@.ops[x],
                forall|x: int|
                    0 <= x < self@.n() && self@.live(x) ==> old(self)@.live(x) && self@.ops[x]
                        == old(self)@.ops[x],
                forall|x: int|
                    0 <= x < self@.n() && old(self)@.live(x) && old(self)@.kept(x) ==> self@.live(
                        x,
                    ),
                self@.edges == edges_alive(old(self)@.edges, self@.ops),
                forall|j: int|
                    0 <= j < old(self)@.edges.len() && !candidates@.contains(
                        (#[trigger] old(self)@.edges[j]).dst,
                    ) ==> self@.live(old(self)@.edges[j].src as int),
            ensures
                forall|j: int|
                    0 <= j < candidates@.len() ==> !(self@.live((#[trigger] candidates@[j]) as int)
                        && !self@.kept(candidates@[j] as int) && !self@.has_out_edge(
                        candidates@[j] as int,
                    )),
            decreases count_some(self@.ops),
        {
            let r = self.find_removable(candidates);
            match r {
                None => { break ; },
                Some(c) => {
                    let ghost pre = self@;
                    proof {
                        lemma_count_some_update_none(pre.ops, c as int);
                        assert(forall|k: int|
                            0 <= k < old(self)@.edges.len() ==> (
                            #[trigger] old(self)@.edges[k]).src < old(self)@.ops.len() && old(
                                self,
                            )@.edges[k].dst < old(self)@.ops.len());
                        lemma_edges_without_alive(old(self)@.edges, pre.ops, c);
                    }
                    self.remove_node(c);
                    proof {
                        assert(self@.ops == pre.ops.update(c as int, None));
                        assert forall|x: int| 0 <= x < self@.n() && self@.live(x) implies old(
                            self,
                        )@.live(x) && self@.ops[x] == old(self)@.ops[x] by {
                            if x != c as int {
                                assert(self@.ops[x] == pre.ops[x]);
                                assert(pre.live(x));
                            } else {
                                assert(!self@.live(x));
                            }
                        }
                        assert forall|x: int|
                            0 <= x < self@.n() && !candidates@.contains(x as usize) implies
                        self@.ops[x] == old(self)@.ops[x] by {
                            assert(candidates@.contains(c));
                            assert(x != c as int);
                        }
                        assert forall|x: int|
                            0 <= x < self@.n() && old(self)@.live(x) && old(self)@.kept(x) implies
                        self@.live(x) by {
                            assert(pre.live(x));
                            assert(!pre.kept(c as int));
                            assert(x != c as int);
                        }
                        lemma_edges_alive_mem(old(self)@.edges, pre.ops);
                        assert forall|j: int|
                            0 <= j < old(self)@.edges.len() && !candidates@.contains(
                                (#[trigger] old(self)@.edges[j]).dst,
                            ) implies self@.live(old(self)@.edges[j].src as int) by {
                            let e = old(self)@.edges[j];
                            assert(pre.live(e.src as int));
                            if e.src == c {
                                assert(old(self)@.live(e.dst as int));
                                assert(pre.ops[e.dst as int] == old(self)@.ops[e.dst as int]);
                                assert(pre.edges.contains(e));
                                let w = choose|w: int|
                                    0 <= w < pre.edges.len() && pre.edges[w] == e;
                                assert((pre.edges[w]).src == c);
                                assert(pre.has_out_edge(c as int));
                                assert(false);
                            } else {
                                assert(self@.ops[e.src as int] == pre.ops[e.src as int]);
                            }
                        }
                    }
                },
            }
        }
    }
}

} // verus!
