//! Graphs behind one interface, and a depth-first traversal over it that
//! keeps its own stack.

pub mod adjacency;
pub mod grid;
pub mod walk;

pub use adjacency::{UnweightedGraph, WeightedGraph};
pub use grid::Grid;

use walk::{
    answered, callable, is_walk, is_walk_prefix, lemma_unmarked_mark, replay, settle, stale, start,
    unmarked, Call, Dfs, Walk,
};
use vstd::prelude::*;

verus! {

/// A graph: a number of nodes, the edges that leave each of them, and a
/// numbering of the nodes.
pub trait Graph {
    /// What names a node.
    type Idx;

    /// What an edge carries.
    type Cost;

    /// The graph's representation is consistent.
    spec fn wf(&self) -> bool;

    /// The number of nodes.
    spec fn size(&self) -> nat;

    /// Whether `i` names a node of the graph.
    spec fn contains(&self, i: Self::Idx) -> bool;

    /// The edges that leave `i`, in the order in which they are walked, each
    /// with its target and its cost.
    spec fn edges_spec(&self, i: Self::Idx) -> Seq<(Self::Idx, Self::Cost)>;

    /// The number of the node `i`.
    spec fn ordinal(&self, i: Self::Idx) -> int;

    /// The numbers of the nodes lie below the graph's size, and two nodes
    /// with one number are one node.
    proof fn lemma_ordinal(&self, i: Self::Idx, j: Self::Idx)
        requires
            self.wf(),
            self.contains(i),
            self.contains(j),
        ensures
            0 <= self.ordinal(i) < self.size(),
            self.ordinal(i) == self.ordinal(j) ==> i == j,
    ;

    /// Every number below the graph's size is the number of a node.
    proof fn lemma_ordinal_onto(&self, k: int) -> (i: Self::Idx)
        requires
            self.wf(),
            0 <= k < self.size(),
        ensures
            self.contains(i),
            self.ordinal(i) == k,
    ;

    /// Every edge leads to a node of the graph.
    proof fn lemma_edges(&self, i: Self::Idx, k: int)
        requires
            self.wf(),
            self.contains(i),
            0 <= k < self.edges_spec(i).len(),
        ensures
            self.contains(self.edges_spec(i)[k].0),
    ;

    /// The number of nodes.
    fn len(&self) -> (n: usize)
        requires
            self.wf(),
        ensures
            n == self.size(),
    ;

    /// The edges that leave the node `i`.
    fn edges(&self, i: Self::Idx) -> (es: Vec<(Self::Idx, Self::Cost)>)
        requires
            self.wf(),
            self.contains(i),
        ensures
            es@ == self.edges_spec(i),
    ;

    /// The number of the node `i`.
    fn idx_to_usize(&self, i: Self::Idx) -> (k: usize)
        requires
            self.wf(),
            self.contains(i),
        ensures
            k == self.ordinal(i),
    ;

    /// Whether the graph has no node.
    fn is_empty(&self) -> (b: bool)
        requires
            self.wf(),
        ensures
            b == (self.size() == 0),
    {
        self.len() == 0
    }
}

/// Some edge of the node `i` leads to the node with the ordinal `o`.
pub open spec fn leads_to_ordinal<G: Graph>(g: &G, i: G::Idx, o: int) -> bool {
    exists|k: int|
        0 <= k < g.edges_spec(i).len() && g.ordinal((#[trigger] g.edges_spec(i)[k]).0) == o
}

/// Where the edges of a node lead to every node of the graph, the ordinals
/// of their targets are exactly the numbers below the graph's size, and two
/// targets with one ordinal are one node.
pub proof fn lemma_ordinals_cover<G: Graph>(g: &G, i: G::Idx)
    requires
        g.wf(),
        g.contains(i),
        forall|v: G::Idx|
            g.contains(v) ==> exists|k: int|
                0 <= k < g.edges_spec(i).len() && (#[trigger] g.edges_spec(i)[k]).0 == v,
    ensures
        forall|k: int|
            0 <= k < g.edges_spec(i).len() ==> 0 <= g.ordinal((#[trigger] g.edges_spec(i)[k]).0)
                < g.size(),
        forall|o: int| 0 <= o < g.size() ==> #[trigger] leads_to_ordinal(g, i, o),
        forall|j: int, k: int|
            0 <= j < g.edges_spec(i).len() && 0 <= k < g.edges_spec(i).len() && g.ordinal(
                (#[trigger] g.edges_spec(i)[j]).0,
            ) == g.ordinal((#[trigger] g.edges_spec(i)[k]).0) ==> g.edges_spec(i)[j].0
                == g.edges_spec(i)[k].0,
{
    let es = g.edges_spec(i);
    assert forall|k: int| 0 <= k < es.len() implies 0 <= g.ordinal((#[trigger] es[k]).0)
        < g.size() by {
        g.lemma_edges(i, k);
        g.lemma_ordinal(es[k].0, es[k].0);
    }
    assert forall|o: int| 0 <= o < g.size() implies #[trigger] leads_to_ordinal(g, i, o) by {
        let v = g.lemma_ordinal_onto(o);
        let k = choose|k: int| 0 <= k < es.len() && (#[trigger] es[k]).0 == v;
        assert(g.ordinal(es[k].0) == o);
    }
    assert forall|j: int, k: int|
        0 <= j < es.len() && 0 <= k < es.len() && g.ordinal((#[trigger] es[j]).0) == g.ordinal(
            (#[trigger] es[k]).0,
        ) implies es[j].0 == es[k].0 by {
        g.lemma_edges(i, j);
        g.lemma_edges(i, k);
        g.lemma_ordinal(es[j].0, es[k].0);
    }
}

/// The depth-first traversal, which every graph has.
pub trait DepthFirst: Graph + Sized {
    /// Walks the graph depth first from the node `init.0` with the payload
    /// `init.1`, on a stack of its own.
    ///
    /// A node is marked when it is expanded. For every edge of an expanded
    /// node that leads to a node not yet marked, `pre_order` is called with
    /// the node, the edge's target, its cost and the node's payload; where it
    /// answers with a payload, the target is walked with it. `post_order` is
    /// called with a node and its payload when everything that was pushed
    /// for the node's edges has been dealt with.
    ///
    /// The result is the sequence of the calls that were made.
    fn dfs<D: Copy, F, H>(&self, init: (Self::Idx, D), pre_order: F, post_order: H) -> (trace: Ghost<
        Seq<Call<Self::Idx, Self::Cost, D>>,
    >) where
        Self::Idx: Copy,
        F: FnMut(&Self::Idx, &Self::Idx, &Self::Cost, &D) -> Option<D>,
        H: FnMut(&Self::Idx, &D),

        requires
            self.wf(),
            self.contains(init.0),
            callable::<Self, D, F, H>(self, pre_order, post_order),
        ensures
            is_walk(self, init, trace@),
            forall|k: int|
                0 <= k < trace@.len() ==> answered(pre_order, post_order, #[trigger] trace@[k]),
    ;
}

impl<G: Graph> DepthFirst for G {
    fn dfs<D: Copy, F, H>(
        &self,
        init: (G::Idx, D),
        mut pre_order: F,
        mut post_order: H,
    ) -> (trace: Ghost<Seq<Call<G::Idx, G::Cost, D>>>) where
        G::Idx: Copy,
        F: FnMut(&G::Idx, &G::Idx, &G::Cost, &D) -> Option<D>,
        H: FnMut(&G::Idx, &D),
     {
        let ghost f0 = pre_order;
        let ghost g0 = post_order;
        let ghost mut trace: Seq<Call<Self::Idx, Self::Cost, D>> = Seq::empty();
        let n = self.len();
        let mut done: Vec<bool> = Vec::new();
        while done.len() < n
            invariant
                done.len() <= n,
                forall|j: int| 0 <= j < done.len() ==> !done[j],
            decreases n - done.len(),
        {
            done.push(false);
        }
        let mut stk: Vec<(Dfs<Self::Idx>, D)> = Vec::new();
        stk.push((Dfs::Post(init.0), init.1));
        stk.push((Dfs::Pre(init.0), init.1));
        proof {
            assert(done@ =~= start(self, init).done);
            assert(stk@ =~= start(self, init).stack);
        }
        while stk.len() > 0
            invariant
                self.wf(),
                n == self.size(),
                done.len() == n,
                pre_order == f0,
                post_order == g0,
                callable::<Self, D, F, H>(self, f0, g0),
                forall|j: int| 0 <= j < stk.len() ==> self.contains((#[trigger] stk[j]).0.node()),
                is_walk_prefix(self, init, trace),
                forall|j: int| 0 <= j < trace.len() ==> answered(f0, g0, #[trigger] trace[j]),
                replay(self, init, trace) == settle(
                    self,
                    Walk { stack: stk@, done: done@, cursor: None },
                ),
            decreases unmarked(done@), stale(self, stk@, done@), stk.len(),
        {
            let ghost stk0 = stk@;
            let ghost done0 = done@;
            let (frame, data) = stk.pop().unwrap();
            match frame {
                Dfs::Pre(idx) => {
                    let o = self.idx_to_usize(idx);
                    proof {
                        assert(self.contains(stk0[stk0.len() - 1].0.node()));
                        self.lemma_ordinal(idx, idx);
                        if done0[o as int] {
                            assert(done0.update(o as int, true) =~= done0);
                        } else {
                            lemma_unmarked_mark(done0, o as int);
                        }
                    }
                    done.set(o, true);
                    let es = self.edges(idx);
                    let mut k: usize = 0;
                    while k < es.len()
                        invariant
                            self.wf(),
                            n == self.size(),
                            done.len() == n,
                            o < n,
                            stk0.len() > 0,
                            done0.len() == n,
                            done@ == done0.update(o as int, true),
                            pre_order == f0,
                            post_order == g0,
                            callable::<Self, D, F, H>(self, f0, g0),
                            self.contains(idx),
                            es@ == self.edges_spec(idx),
                            k <= es.len(),
                            forall|j: int|
                                0 <= j < stk.len() ==> self.contains((#[trigger] stk[j]).0.node()),
                            stale(self, stk@, done@) == stale(self, stk0.drop_last(), done@),
                            is_walk_prefix(self, init, trace),
                            forall|j: int|
                                0 <= j < trace.len() ==> answered(f0, g0, #[trigger] trace[j]),
                            replay(self, init, trace) == settle(
                                self,
                                Walk { stack: stk@, done: done@, cursor: Some((idx, data, k as int)) },
                            ),
                        decreases es.len() - k,
                    {
                        let nidx = es[k].0;
                        proof {
                            self.lemma_edges(idx, k as int);
                            self.lemma_ordinal(nidx, nidx);
                        }
                        let on = self.idx_to_usize(nidx);
                        if !done[on] {
                            let ghost stk1 = stk@;
                            let next = pre_order(&idx, &nidx, &es[k].1, &data);
                            let ghost c = Call::PreOrder {
                                from: idx,
                                to: nidx,
                                cost: es[k as int].1,
                                data,
                                next,
                            };
                            proof {
                                assert(trace.push(c).drop_last() =~= trace);
                                trace = trace.push(c);
                            }
                            if let Some(nd) = next {
                                stk.push((Dfs::Post(nidx), nd));
                                let ghost stk2 = stk@;
                                stk.push((Dfs::Pre(nidx), nd));
                                proof {
                                    // neither frame is stale: the node is not marked
                                    assert(stk2.drop_last() =~= stk1);
                                    assert(stk@.drop_last() =~= stk2);
                                    assert(stale(self, stk2, done@) == stale(self, stk1, done@));
                                    assert(stale(self, stk@, done@) == stale(self, stk2, done@));
                                }
                            }
                        }
                        k += 1;
                    }
                },
                Dfs::Post(idx) => {
                    post_order(&idx, &data);
                    let ghost c = Call::PostOrder { idx, data };
                    proof {
                        assert(trace.push(c).drop_last() =~= trace);
                        trace = trace.push(c);
                    }
                },
            }
        }
        Ghost(trace)
    }
}

} // verus!
